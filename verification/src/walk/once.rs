//! A walk reads every directory once and lists every repository once, none of
//! them inside another.

use vstd::prelude::*;

use super::model::{
    after_reading, enters, events_at, is_walk, law_walk_finds_every_repository,
    lemma_event_source, lemma_reached_from_root, lemma_repository_from_root, lemma_sound_walk,
    names, puts, reached, repository, root_alone, sound, yields, Progress, World,
};
use super::sys::{
    below, entry_events, event_of, is_dots, printed, printed_repos, verdict, EventView, Rules,
};
use super::Pattern;
use crate::bytes::SLASH;

verus! {

/// Whether a name is one that a directory entry can have.
pub open spec fn plain_name(name: Seq<u8>) -> bool {
    name.len() > 0 && !name.contains(SLASH) && !is_dots(name)
}

impl World {
    /// Whether the entries of every directory have names that entries can
    /// have, no two of them the same.
    pub open spec fn well_named(self) -> bool {
        &&& forall|d: Seq<u8>, i: int|
            0 <= i < (self.ents)(d).len() ==> plain_name((#[trigger] (self.ents)(d)[i]).name)
        &&& forall|d: Seq<u8>, i: int, j: int|
            0 <= i < j < (self.ents)(d).len() ==> (#[trigger] (self.ents)(d)[i]).name != (
            #[trigger] (self.ents)(d)[j]).name
    }
}

/// Whether the path `q` begins with the path `p` and a slash.
pub open spec fn lies_below(q: Seq<u8>, p: Seq<u8>) -> bool {
    q.len() > p.len() && q.take(p.len() as int) == p && q[p.len() as int] == SLASH
}

/// What is printed for the repositories that reading the directories `reads`
/// names, one directory after the other.
pub open spec fn listing(w: World, rules: Rules, reads: Seq<Seq<u8>>) -> Seq<Seq<u8>>
    decreases reads.len(),
{
    if reads.len() == 0 {
        Seq::empty()
    } else {
        listing(w, rules, reads.drop_last()) + printed_repos(events_at(w, rules, reads.last()))
    }
}

/// A path tells the directory and the name that it is made of.
proof fn lemma_below_unique(d: Seq<u8>, a: Seq<u8>, e: Seq<u8>, b: Seq<u8>)
    requires
        plain_name(a),
        plain_name(b),
        below(d, a) == below(e, b),
        d.len() <= e.len(),
    ensures
        d == e,
        a == b,
{
    let q = below(d, a);
    let n = e.len() as int;
    if e.len() > 0 {
        assert(q == e.push(SLASH) + b);
        assert(q[n] == SLASH);
    }
    if d.len() > 0 {
        assert(q == d.push(SLASH) + a);
    }
    if d.len() < e.len() {
        if d.len() == 0 {
            assert(a[n] == SLASH);
        } else {
            assert(q.len() == d.len() + 1 + a.len());
            assert(a[n - d.len() - 1] == q[n]);
        }
        assert(a.contains(SLASH));
    } else if d.len() == 0 {
        assert(d =~= e);
    } else {
        assert(d =~= q.take(n));
        assert(e =~= q.take(n));
        assert(a =~= q.skip(n + 1));
        assert(b =~= q.skip(n + 1));
    }
}

/// A path tells which entry of which directory it is the path of.
pub proof fn lemma_child_unique(w: World, d: Seq<u8>, i: int, e: Seq<u8>, j: int)
    requires
        w.well_named(),
        0 <= i < (w.ents)(d).len(),
        0 <= j < (w.ents)(e).len(),
        w.child(d, i) == w.child(e, j),
    ensures
        d == e,
        i == j,
{
    let a = (w.ents)(d)[i].name;
    let b = (w.ents)(e)[j].name;
    assert(plain_name(a) && plain_name(b));
    if d.len() <= e.len() {
        lemma_below_unique(d, a, e, b);
    } else {
        lemma_below_unique(e, b, d, a);
    }
    if i < j {
        assert((w.ents)(d)[i].name != (w.ents)(d)[j].name);
    }
    if j < i {
        assert((w.ents)(d)[j].name != (w.ents)(d)[i].name);
    }
}

/// What lies above an entry is its directory or lies above that.
pub proof fn lemma_above(d: Seq<u8>, name: Seq<u8>, p: Seq<u8>)
    requires
        plain_name(name),
        lies_below(below(d, name), p),
        p.len() > 0,
    ensures
        d == p || lies_below(d, p),
{
    let q = below(d, name);
    let n = p.len() as int;
    if d.len() == 0 {
        assert(name[n] == SLASH);
    } else if n > d.len() {
        assert(name[n - d.len() - 1] == SLASH);
    } else if n == d.len() {
        assert(q.take(n) =~= d);
    } else {
        assert(d[n] == q[n]);
        assert(d.take(n) =~= q.take(n));
    }
}

/// The directory that queued a path, and which of its entries that is.
proof fn lemma_put_source(w: World, rules: Rules, d: Seq<u8>, p: Seq<u8>) -> (i: int)
    requires
        puts(events_at(w, rules, d), p),
    ensures
        0 <= i < (w.ents)(d).len(),
        p == w.child(d, i),
        verdict((w.ents)(d)[i], p, rules, (w.facts)(d).entries[i]) is Queue,
{
    let events = events_at(w, rules, d);
    let k = choose|k: int|
        0 <= k < events.len() && (#[trigger] events[k] matches EventView::Queue(q, _) && q == p);
    let i = lemma_event_source(d, (w.ents)(d), rules, (w.facts)(d), 0, k);
    assert(seq![events[k]][0] == events[k]);
    i
}

/// The entry that names a repository, where the directory is none itself.
proof fn lemma_name_source(w: World, rules: Rules, d: Seq<u8>, p: Seq<u8>) -> (i: int)
    requires
        names(events_at(w, rules, d), p),
        !w.own_git(d),
    ensures
        0 <= i < (w.ents)(d).len(),
        p == w.child(d, i),
        verdict((w.ents)(d)[i], p, rules, (w.facts)(d).entries[i]) is Repo,
{
    let events = events_at(w, rules, d);
    let k = choose|k: int| 0 <= k < events.len() && #[trigger] events[k] == EventView::Repo(p);
    let i = lemma_event_source(d, (w.ents)(d), rules, (w.facts)(d), 0, k);
    assert(seq![events[k]][0] == events[k]);
    i
}

/// Whether what is to be read was not read before, and everything but the
/// root was queued, and every repository named, by a directory that was.
pub open spec fn orderly(s: Progress, w: World, rules: Rules) -> bool {
    &&& forall|d: Seq<u8>| #[trigger] s.todo.contains(d) ==> !s.done.contains(d)
    &&& forall|p: Seq<u8>|
        #![trigger s.todo.contains(p)]
        #![trigger s.done.contains(p)]
        (s.todo.contains(p) || s.done.contains(p)) && p.len() > 0 ==> exists|d: Seq<u8>|
            s.done.contains(d) && #[trigger] puts(events_at(w, rules, d), p)
    &&& forall|p: Seq<u8>| #[trigger]
        s.found.contains(p) ==> exists|d: Seq<u8>|
            s.done.contains(d) && #[trigger] names(events_at(w, rules, d), p)
}

proof fn lemma_orderly_step(s: Progress, w: World, rules: Rules, d: Seq<u8>)
    requires
        w.coherent(),
        w.well_named(),
        orderly(s, w, rules),
        s.todo.contains(d),
    ensures
        orderly(after_reading(s, w, rules, d), w, rules),
{
    let t = after_reading(s, w, rules, d);
    assert forall|x: Seq<u8>| #[trigger] t.todo.contains(x) implies !t.done.contains(x) by {
        if puts(events_at(w, rules, d), x) {
            let i = lemma_put_source(w, rules, d, x);
            assert(w.child(d, i).len() > d.len());
            if s.done.contains(x) {
                let e = choose|e: Seq<u8>|
                    s.done.contains(e) && #[trigger] puts(events_at(w, rules, e), x);
                let j = lemma_put_source(w, rules, e, x);
                lemma_child_unique(w, d, i, e, j);
            }
        }
    }
    assert forall|p: Seq<u8>|
        #![trigger t.todo.contains(p)]
        #![trigger t.done.contains(p)]
        (t.todo.contains(p) || t.done.contains(p)) && p.len() > 0 implies exists|e: Seq<u8>|
        t.done.contains(e) && #[trigger] puts(events_at(w, rules, e), p) by {
        if puts(events_at(w, rules, d), p) {
            assert(t.done.contains(d));
        } else {
            assert(s.todo.contains(p) || s.done.contains(p));
            let e = choose|e: Seq<u8>|
                s.done.contains(e) && #[trigger] puts(events_at(w, rules, e), p);
            assert(t.done.contains(e));
        }
    }
    assert forall|p: Seq<u8>| #[trigger] t.found.contains(p) implies exists|e: Seq<u8>|
        t.done.contains(e) && #[trigger] names(events_at(w, rules, e), p) by {
        if names(events_at(w, rules, d), p) {
            assert(t.done.contains(d));
        } else {
            assert(s.found.contains(p));
            let e = choose|e: Seq<u8>|
                s.done.contains(e) && #[trigger] names(events_at(w, rules, e), p);
            assert(t.done.contains(e));
        }
    }
}

/// Every state of a walk is orderly, and what it has read is what the order of
/// reading says.
pub proof fn lemma_orderly_walk(
    states: Seq<Progress>,
    order: Seq<Seq<u8>>,
    w: World,
    rules: Rules,
    k: int,
)
    requires
        w.coherent(),
        w.well_named(),
        is_walk(states, order, w, rules),
        0 <= k < states.len(),
    ensures
        orderly(states[k], w, rules),
        states[k].done == order.take(k).to_set(),
    decreases k,
{
    if k > 0 {
        lemma_orderly_walk(states, order, w, rules, k - 1);
        let d = order[k - 1];
        assert(states[k - 1].todo.contains(d));
        lemma_orderly_step(states[k - 1], w, rules, d);
        let front = order.take(k - 1);
        assert(order.take(k) =~= front.push(d));
        assert forall|x: Seq<u8>| #[trigger] states[k].done.contains(x) == order.take(
            k,
        ).to_set().contains(x) by {
            if front.contains(x) {
                let j = choose|j: int| 0 <= j < front.len() && front[j] == x;
                assert(front.push(d)[j] == x);
            }
            assert(front.push(d)[k - 1] == d);
        }
        assert(states[k].done =~= order.take(k).to_set());
    } else {
        assert(states[0].done =~= order.take(0).to_set());
    }
}

/// Only one of the directories read names a repository.
proof fn lemma_named_by_one(
    s: Progress,
    w: World,
    rules: Rules,
    d: Seq<u8>,
    e: Seq<u8>,
    p: Seq<u8>,
)
    requires
        w.coherent(),
        w.well_named(),
        orderly(s, w, rules),
        s.done.contains(d),
        s.done.contains(e),
        names(events_at(w, rules, d), p),
        names(events_at(w, rules, e), p),
    ensures
        d == e,
{
    if w.own_git(d) && w.own_git(e) {
    } else if w.own_git(d) {
        lemma_named_by_parent(s, w, rules, d, e);
    } else if w.own_git(e) {
        lemma_named_by_parent(s, w, rules, e, d);
    } else {
        let i = lemma_name_source(w, rules, d, p);
        let j = lemma_name_source(w, rules, e, p);
        lemma_child_unique(w, d, i, e, j);
    }
}

/// A directory that was read is not named by the one that it is an entry of.
proof fn lemma_named_by_parent(s: Progress, w: World, rules: Rules, p: Seq<u8>, e: Seq<u8>)
    requires
        w.coherent(),
        w.well_named(),
        orderly(s, w, rules),
        s.done.contains(p),
        !w.own_git(e),
    ensures
        !names(events_at(w, rules, e), p),
{
    if names(events_at(w, rules, e), p) {
        let j = lemma_name_source(w, rules, e, p);
        assert(w.child(e, j).len() > e.len());
        let f = choose|f: Seq<u8>|
            s.done.contains(f) && #[trigger] puts(events_at(w, rules, f), p);
        let l = lemma_put_source(w, rules, f, p);
        lemma_child_unique(w, e, j, f, l);
    }
}

/// The printed repositories of two lists of events, one after the other.
proof fn lemma_printed_concat(a: Seq<EventView>, b: Seq<EventView>)
    ensures
        printed_repos(a + b) == printed_repos(a) + printed_repos(b),
    decreases b.len(),
{
    if b.len() == 0 {
        assert(a + b =~= a);
        assert(printed_repos(a) + printed_repos(b) =~= printed_repos(a));
    } else {
        lemma_printed_concat(a, b.drop_last());
        assert((a + b).drop_last() =~= a + b.drop_last());
        assert(printed_repos(a + b) =~= printed_repos(a) + printed_repos(b));
    }
}

/// What is printed is a repository that the events name, and each is printed.
proof fn lemma_printed_is_named(events: Seq<EventView>, x: Seq<u8>)
    ensures
        printed_repos(events).contains(x) <==> exists|p: Seq<u8>| #[trigger]
            names(events, p) && x == printed(p),
    decreases events.len(),
{
    if events.len() > 0 {
        let front = events.drop_last();
        lemma_printed_is_named(front, x);
        let all = printed_repos(events);
        let rest = printed_repos(front);
        if all.contains(x) {
            let k = choose|k: int| 0 <= k < all.len() && all[k] == x;
            if k < rest.len() {
                assert(rest[k] == x);
                let p = choose|p: Seq<u8>| #[trigger] names(front, p) && x == printed(p);
                let m = choose|m: int|
                    0 <= m < front.len() && #[trigger] front[m] == EventView::Repo(p);
                assert(events[m] == EventView::Repo(p));
                assert(names(events, p));
            } else {
                let p = events.last()->Repo_0;
                assert(events[events.len() - 1] == EventView::Repo(p));
                assert(names(events, p));
            }
        }
        if exists|p: Seq<u8>| #[trigger] names(events, p) && x == printed(p) {
            let p = choose|p: Seq<u8>| #[trigger] names(events, p) && x == printed(p);
            let m = choose|m: int|
                0 <= m < events.len() && #[trigger] events[m] == EventView::Repo(p);
            if m < front.len() {
                assert(front[m] == EventView::Repo(p));
                assert(names(front, p));
                let k = choose|k: int| 0 <= k < rest.len() && rest[k] == x;
                assert(all[k] == x);
            } else {
                assert(all[all.len() - 1] == x);
            }
        }
    }
}

/// The entries from number `from` on name every repository once.
proof fn lemma_entries_print_once(w: World, rules: Rules, d: Seq<u8>, from: int)
    requires
        w.well_named(),
        0 <= from <= (w.ents)(d).len(),
    ensures
        printed_repos(
            entry_events(d, (w.ents)(d), rules, (w.facts)(d), from),
        ).no_duplicates(),
    decreases (w.ents)(d).len() - from,
{
    let ents = (w.ents)(d);
    let facts = (w.facts)(d);
    if from < ents.len() {
        let path = w.child(d, from);
        let head = event_of(path, verdict(ents[from], path, rules, facts.entries[from]));
        let tail = entry_events(d, ents, rules, facts, from + 1);
        lemma_entries_print_once(w, rules, d, from + 1);
        lemma_printed_concat(head, tail);
        let a = printed_repos(head);
        let b = printed_repos(tail);
        assert forall|i: int, j: int| 0 <= i < a.len() && 0 <= j < b.len() implies a[i] != b[j] by {
            lemma_printed_is_named(head, a[i]);
            lemma_printed_is_named(tail, b[j]);
            assert(a.contains(a[i]));
            assert(b.contains(b[j]));
            let p = choose|p: Seq<u8>| #[trigger] names(head, p) && a[i] == printed(p);
            let q = choose|q: Seq<u8>| #[trigger] names(tail, q) && b[j] == printed(q);
            let m = choose|m: int|
                0 <= m < tail.len() && #[trigger] tail[m] == EventView::Repo(q);
            let l = lemma_event_source(d, ents, rules, facts, from + 1, m);
            assert(seq![tail[m]][0] == tail[m]);
            assert(p == path);
            assert(q == w.child(d, l));
            assert(plain_name(ents[from].name) && plain_name(ents[l].name));
            if p == q {
                lemma_child_unique(w, d, from, d, l);
            }
        }
        assert forall|i: int, j: int| 0 <= i < a.len() && 0 <= j < a.len() && i != j implies a[i]
            != a[j] by {
            reveal_with_fuel(printed_repos, 3);
        }
        vstd::seq_lib::lemma_no_dup_in_concat(a, b);
    }
}

/// One directory names every repository once.
proof fn lemma_prints_once(w: World, rules: Rules, d: Seq<u8>)
    requires
        w.well_named(),
    ensures
        printed_repos(events_at(w, rules, d)).no_duplicates(),
{
    if w.own_git(d) {
        reveal_with_fuel(printed_repos, 3);
    } else {
        lemma_entries_print_once(w, rules, d, 0);
    }
}

/// What a walk prints is named by one of the directories read.
proof fn lemma_listed_is_named(w: World, rules: Rules, reads: Seq<Seq<u8>>, x: Seq<u8>) -> (r: (
    int,
    Seq<u8>,
))
    requires
        listing(w, rules, reads).contains(x),
    ensures
        0 <= r.0 < reads.len(),
        names(events_at(w, rules, reads[r.0]), r.1),
        x == printed(r.1),
    decreases reads.len(),
{
    let front = listing(w, rules, reads.drop_last());
    let events = events_at(w, rules, reads.last());
    let all = listing(w, rules, reads);
    let k = choose|k: int| 0 <= k < all.len() && all[k] == x;
    if k < front.len() {
        assert(front[k] == x);
        lemma_listed_is_named(w, rules, reads.drop_last(), x)
    } else {
        assert(printed_repos(events)[k - front.len()] == x);
        lemma_printed_is_named(events, x);
        let p = choose|p: Seq<u8>| #[trigger] names(events, p) && x == printed(p);
        (reads.len() - 1, p)
    }
}

/// What one of the directories read names is printed.
proof fn lemma_named_is_listed(w: World, rules: Rules, reads: Seq<Seq<u8>>, k: int, p: Seq<u8>)
    requires
        0 <= k < reads.len(),
        names(events_at(w, rules, reads[k]), p),
    ensures
        listing(w, rules, reads).contains(printed(p)),
    decreases reads.len(),
{
    let front = listing(w, rules, reads.drop_last());
    let last = printed_repos(events_at(w, rules, reads.last()));
    let all = listing(w, rules, reads);
    if k < reads.len() - 1 {
        lemma_named_is_listed(w, rules, reads.drop_last(), k, p);
        let m = choose|m: int| 0 <= m < front.len() && front[m] == printed(p);
        assert(all[m] == printed(p));
    } else {
        lemma_printed_is_named(events_at(w, rules, reads.last()), printed(p));
        let m = choose|m: int| 0 <= m < last.len() && last[m] == printed(p);
        assert(all[front.len() + m] == printed(p));
    }
}

/// Repositories with one spelling are one repository.
proof fn lemma_printed_apart(
    w: World,
    rules: Rules,
    d: Seq<u8>,
    p: Seq<u8>,
    e: Seq<u8>,
    q: Seq<u8>,
)
    requires
        w.well_named(),
        reached(w, rules.exclude@, d),
        reached(w, rules.exclude@, e),
        names(events_at(w, rules, d), p),
        names(events_at(w, rules, e), q),
        printed(p) == printed(q),
    ensures
        p == q,
{
    if p.len() == 0 && q.len() > 0 {
        lemma_no_dot(w, rules, e, q);
    } else if q.len() == 0 && p.len() > 0 {
        lemma_no_dot(w, rules, d, p);
    } else if p.len() == 0 {
        assert(p =~= q);
    }
}

/// No path that is named is a dot.
proof fn lemma_no_dot(w: World, rules: Rules, d: Seq<u8>, p: Seq<u8>)
    requires
        w.well_named(),
        reached(w, rules.exclude@, d),
        names(events_at(w, rules, d), p),
        p.len() > 0,
    ensures
        p != printed(Seq::empty()),
{
    let (c, i) = if w.own_git(d) {
        choose|c: Seq<u8>, i: int|
            c.len() < d.len() && #[trigger] enters(w, rules.exclude@, c, i, d) && reached(
                w,
                rules.exclude@,
                c,
            )
    } else {
        (d, lemma_name_source(w, rules, d, p))
    };
    assert(plain_name((w.ents)(c)[i].name));
    assert(p == w.child(c, i));
    if c.len() > 0 {
        assert(p[c.len() as int] == SLASH);
    }
}

/// The directories read, each once, in any order, list every repository once.
proof fn lemma_lists_once(s: Progress, w: World, rules: Rules, reads: Seq<Seq<u8>>)
    requires
        w.coherent(),
        w.well_named(),
        sound(s, w, rules, root_alone()),
        orderly(s, w, rules),
        reads.no_duplicates(),
        forall|k: int| 0 <= k < reads.len() ==> s.done.contains(#[trigger] reads[k]),
    ensures
        listing(w, rules, reads).no_duplicates(),
    decreases reads.len(),
{
    if reads.len() > 0 {
        let front = reads.drop_last();
        let d = reads.last();
        let events = events_at(w, rules, d);
        lemma_lists_once(s, w, rules, front);
        lemma_prints_once(w, rules, d);
        let a = listing(w, rules, front);
        let b = printed_repos(events);
        assert forall|i: int, j: int| 0 <= i < a.len() && 0 <= j < b.len() implies a[i] != b[j] by {
            assert(a.contains(a[i]));
            assert(b.contains(b[j]));
            let (k, p) = lemma_listed_is_named(w, rules, front, a[i]);
            lemma_printed_is_named(events, b[j]);
            let q = choose|q: Seq<u8>| #[trigger] names(events, q) && b[j] == printed(q);
            assert(front[k] == reads[k]);
            assert(s.done.contains(reads[k]));
            assert(s.done.contains(reads[reads.len() - 1]));
            lemma_reached_from_root(w, rules.exclude@, reads[k]);
            lemma_reached_from_root(w, rules.exclude@, d);
            if a[i] == b[j] {
                lemma_printed_apart(w, rules, reads[k], p, d, q);
                lemma_named_by_one(s, w, rules, reads[k], d, p);
            }
        }
        vstd::seq_lib::lemma_no_dup_in_concat(a, b);
    }
}

/// Whatever lies above a directory that the walk gets to is one that it gets
/// to, and no repository.
proof fn lemma_way(w: World, exclude: Seq<Pattern>, x: Seq<u8>, p: Seq<u8>)
    requires
        w.well_named(),
        reached(w, exclude, x),
        lies_below(x, p),
        p.len() > 0,
    ensures
        reached(w, exclude, p),
        !w.own_git(p),
    decreases x.len(),
{
    let (d, i) = choose|d: Seq<u8>, i: int|
        d.len() < x.len() && #[trigger] enters(w, exclude, d, i, x) && reached(w, exclude, d);
    assert(plain_name((w.ents)(d)[i].name));
    lemma_above(d, (w.ents)(d)[i].name, p);
    if d != p {
        lemma_way(w, exclude, d, p);
    }
}

/// A walk that gets below its root has a root that is no repository.
proof fn lemma_open_root(w: World, exclude: Seq<Pattern>, x: Seq<u8>)
    requires
        reached(w, exclude, x),
        x.len() > 0,
    ensures
        !w.own_git(Seq::empty()),
    decreases x.len(),
{
    let (d, i) = choose|d: Seq<u8>, i: int|
        d.len() < x.len() && #[trigger] enters(w, exclude, d, i, x) && reached(w, exclude, d);
    if d.len() > 0 {
        lemma_open_root(w, exclude, d);
    } else {
        assert(d =~= Seq::empty());
    }
}

/// No repository lies below another one.
pub proof fn law_no_repository_inside_another(
    w: World,
    exclude: Seq<Pattern>,
    p: Seq<u8>,
    q: Seq<u8>,
)
    requires
        w.coherent(),
        w.well_named(),
        repository(w, exclude, p),
        repository(w, exclude, q),
    ensures
        !lies_below(q, p),
        p.len() == 0 ==> q.len() == 0,
{
    if q.len() > 0 {
        let (e, j) = choose|e: Seq<u8>, j: int|
            reached(w, exclude, e) && #[trigger] yields(w, exclude, e, j, q);
        assert(plain_name((w.ents)(e)[j].name));
        if p.len() == 0 {
            assert(p =~= Seq::empty());
            if e.len() > 0 {
                lemma_open_root(w, exclude, e);
            } else {
                assert(e =~= p);
            }
            let (d, i) = choose|d: Seq<u8>, i: int|
                reached(w, exclude, d) && #[trigger] yields(w, exclude, d, i, p);
            assert(w.child(d, i).len() > d.len());
        } else if lies_below(q, p) {
            lemma_above(e, (w.ents)(e)[j].name, p);
            if e != p {
                lemma_way(w, exclude, e, p);
            }
            assert(reached(w, exclude, p) && !w.own_git(p));
            let (d, i) = choose|d: Seq<u8>, i: int|
                reached(w, exclude, d) && #[trigger] yields(w, exclude, d, i, p);
            let (c, k) = choose|c: Seq<u8>, k: int|
                c.len() < p.len() && #[trigger] enters(w, exclude, c, k, p) && reached(
                    w,
                    exclude,
                    c,
                );
            lemma_child_unique(w, d, i, c, k);
            assert(w.child(d, i).len() > d.len());
        }
    }
}

/// Reads in another order are reads of the same directories, each once.
proof fn lemma_same_reads(
    states: Seq<Progress>,
    order: Seq<Seq<u8>>,
    w: World,
    rules: Rules,
    reads: Seq<Seq<u8>>,
)
    requires
        w.coherent(),
        w.well_named(),
        is_walk(states, order, w, rules),
        reads.to_multiset() == order.to_multiset(),
    ensures
        order.no_duplicates(),
        reads.no_duplicates(),
        reads.to_set() == states.last().done,
{
    let n = order.len() as int;
    assert forall|i: int, j: int| 0 <= i < j < n implies order[i] != order[j] by {
        lemma_orderly_walk(states, order, w, rules, j);
        assert(states[j].todo.contains(order[j]));
        assert(order.take(j)[i] == order[i]);
        assert(states[j].done.contains(order[i]));
    }
    lemma_orderly_walk(states, order, w, rules, n);
    assert(order.take(n) =~= order);
    order.lemma_multiset_has_no_duplicates();
    reads.lemma_multiset_has_no_duplicates_conv();
    order.to_multiset_ensures();
    reads.to_multiset_ensures();
    assert forall|d: Seq<u8>| reads.contains(d) == #[trigger] order.contains(d) by {
        assert(order.contains(d) <==> order.to_multiset().count(d) > 0);
        assert(reads.contains(d) <==> reads.to_multiset().count(d) > 0);
    }
    assert(reads.to_set() =~= order.to_set());
}

/// A walk reads every directory once and lists every repository once, and no
/// path that it lists lies below another one. `reads` are the directories
/// read as the workers' lists have them, one worker's after the other's: in
/// any order.
pub proof fn law_each_path_once(
    states: Seq<Progress>,
    order: Seq<Seq<u8>>,
    w: World,
    rules: Rules,
    reads: Seq<Seq<u8>>,
)
    requires
        w.coherent(),
        w.well_named(),
        is_walk(states, order, w, rules),
        reads.to_multiset() == order.to_multiset(),
    ensures
        order.no_duplicates(),
        listing(w, rules, reads).no_duplicates(),
        forall|i: int, j: int|
            0 <= i < listing(w, rules, reads).len() && 0 <= j < listing(w, rules, reads).len()
                ==> !lies_below(
                #[trigger] listing(w, rules, reads)[j],
                #[trigger] listing(w, rules, reads)[i],
            ),
{
    let s = states.last();
    lemma_same_reads(states, order, w, rules, reads);
    lemma_orderly_walk(states, order, w, rules, states.len() - 1);
    lemma_sound_walk(states, order, w, rules, root_alone(), states.len() - 1);
    assert forall|k: int| 0 <= k < reads.len() implies s.done.contains(#[trigger] reads[k]) by {
        assert(reads.to_set().contains(reads[k]));
    }
    lemma_lists_once(s, w, rules, reads);
    let all = listing(w, rules, reads);
    assert forall|i: int, j: int| 0 <= i < all.len() && 0 <= j < all.len() implies !lies_below(
        #[trigger] all[j],
        #[trigger] all[i],
    ) by {
        assert(all.contains(all[i]) && all.contains(all[j]));
        let (k, p) = lemma_listed_is_named(w, rules, reads, all[i]);
        let (l, q) = lemma_listed_is_named(w, rules, reads, all[j]);
        assert(s.done.contains(reads[k]) && s.done.contains(reads[l]));
        assert(s.found.contains(p) && s.found.contains(q));
        lemma_repository_from_root(w, rules.exclude@, p);
        lemma_repository_from_root(w, rules.exclude@, q);
        law_no_repository_inside_another(w, rules.exclude@, p, q);
        if p.len() == 0 {
            assert(q =~= p);
        } else if q.len() == 0 {
            law_no_repository_inside_another(w, rules.exclude@, q, p);
        }
    }
}

/// A walk that has nothing left to read lists the repositories below its root
/// and nothing else.
pub proof fn law_listing_is_the_repositories(
    states: Seq<Progress>,
    order: Seq<Seq<u8>>,
    w: World,
    rules: Rules,
    reads: Seq<Seq<u8>>,
    x: Seq<u8>,
)
    requires
        w.coherent(),
        w.well_named(),
        is_walk(states, order, w, rules),
        states.last().todo =~= Set::empty(),
        reads.to_multiset() == order.to_multiset(),
    ensures
        listing(w, rules, reads).contains(x) <==> exists|p: Seq<u8>| #[trigger]
            repository(w, rules.exclude@, p) && x == printed(p),
{
    let s = states.last();
    lemma_same_reads(states, order, w, rules, reads);
    lemma_orderly_walk(states, order, w, rules, states.len() - 1);
    lemma_sound_walk(states, order, w, rules, root_alone(), states.len() - 1);
    if listing(w, rules, reads).contains(x) {
        let (k, p) = lemma_listed_is_named(w, rules, reads, x);
        assert(reads.to_set().contains(reads[k]));
        assert(s.found.contains(p));
        lemma_repository_from_root(w, rules.exclude@, p);
    }
    if exists|p: Seq<u8>| #[trigger] repository(w, rules.exclude@, p) && x == printed(p) {
        let p = choose|p: Seq<u8>| #[trigger] repository(w, rules.exclude@, p) && x == printed(p);
        law_walk_finds_every_repository(states, order, w, rules, p);
        let d = choose|d: Seq<u8>|
            s.done.contains(d) && #[trigger] names(events_at(w, rules, d), p);
        assert(reads.to_set().contains(d));
        let k = choose|k: int| 0 <= k < reads.len() && reads[k] == d;
        lemma_named_is_listed(w, rules, reads, k, p);
    }
}

} // verus!
