//! What makes no difference to a walk, and what an exclusion makes.

use vstd::prelude::*;

use super::model::{
    after_reading, enters, events_at, is_walk, lemma_sound_walk, names, puts, reached, repository,
    root_alone, yields, Progress, World,
};
use super::once::{
    law_each_path_once, law_listing_is_the_repositories, lemma_above, lemma_orderly_walk,
    lies_below, listing, plain_name,
};
use super::sys::{
    below, entry_events, event_of, excluded_count, out_of_descriptors, printed_repos, verdict,
    EntryFacts, EventView, Opened, Rules,
};
use super::{excluded_by, Pattern};

verus! {

/// Whether a directory goes on the queue when opening it gives this: with its
/// handle, or by its path where no handle could be had.
pub open spec fn is_queued(opened: Opened) -> bool {
    match opened {
        Opened::Failed(e) => out_of_descriptors(e),
        _ => true,
    }
}

/// Whether two answers about an entry differ at most in the handle.
pub open spec fn same_but_handle(a: EntryFacts, b: EntryFacts) -> bool {
    &&& a.lstat == b.lstat
    &&& a.git == b.git
    &&& a.target == b.target
    &&& a.open == b.open || (is_queued(a.open) && is_queued(b.open))
}

/// Whether two filesystems are the same but for the handles that were to be
/// had: one walk was over its budget, or out of descriptors, where the other
/// was not.
pub open spec fn same_but_handles(a: World, b: World) -> bool {
    forall|d: Seq<u8>|
        {
            &&& #[trigger] (a.ents)(d) == (b.ents)(d)
            &&& (a.facts)(d).git == (b.facts)(d).git
            &&& forall|i: int|
                0 <= i < (a.ents)(d).len() ==> same_but_handle(
                    #[trigger] (a.facts)(d).entries[i],
                    (b.facts)(d).entries[i],
                )
        }
}

/// An event without the handle.
spec fn bare(e: EventView) -> EventView {
    match e {
        EventView::Queue(p, _) => EventView::Queue(p, None),
        _ => e,
    }
}

/// Whether events differ at most in handles.
spec fn bare_equal(a: Seq<EventView>, b: Seq<EventView>) -> bool {
    a.len() == b.len() && forall|k: int| 0 <= k < a.len() ==> bare(#[trigger] a[k]) == bare(b[k])
}

/// How many directories and links the reads of a walk excluded.
pub open spec fn excluded_total(w: World, rules: Rules, reads: Seq<Seq<u8>>) -> nat
    decreases reads.len(),
{
    if reads.len() == 0 {
        0
    } else {
        excluded_total(w, rules, reads.drop_last()) + excluded_count(
            events_at(w, rules, reads.last()),
        )
    }
}

proof fn lemma_entries_alike(a: World, b: World, rules: Rules, d: Seq<u8>, from: int)
    requires
        same_but_handles(a, b),
        0 <= from <= (a.ents)(d).len(),
    ensures
        bare_equal(
            entry_events(d, (a.ents)(d), rules, (a.facts)(d), from),
            entry_events(d, (b.ents)(d), rules, (b.facts)(d), from),
        ),
    decreases (a.ents)(d).len() - from,
{
    let ents = (a.ents)(d);
    assert(ents == (b.ents)(d));
    if from < ents.len() {
        lemma_entries_alike(a, b, rules, d, from + 1);
        assert(same_but_handle((a.facts)(d).entries[from], (b.facts)(d).entries[from]));
        let path = below(d, ents[from].name);
        let x = event_of(path, verdict(ents[from], path, rules, (a.facts)(d).entries[from]));
        let y = event_of(path, verdict(ents[from], path, rules, (b.facts)(d).entries[from]));
        assert(bare_equal(x, y));
        let xs = entry_events(d, ents, rules, (a.facts)(d), from + 1);
        let ys = entry_events(d, ents, rules, (b.facts)(d), from + 1);
        assert forall|k: int| 0 <= k < (x + xs).len() implies bare(#[trigger] (x + xs)[k]) == bare(
            (y + ys)[k],
        ) by {
            if k < x.len() {
                assert((x + xs)[k] == x[k]);
            } else {
                assert((x + xs)[k] == xs[k - x.len()]);
            }
        }
    }
}

/// Reading a directory gives rise to the same events but for the handles.
proof fn lemma_alike(a: World, b: World, rules: Rules, d: Seq<u8>)
    requires
        same_but_handles(a, b),
    ensures
        bare_equal(events_at(a, rules, d), events_at(b, rules, d)),
{
    assert((a.ents)(d) == (b.ents)(d));
    if !a.own_git(d) {
        lemma_entries_alike(a, b, rules, d, 0);
    }
}

/// Handles do not count for what events say of repositories and exclusions.
proof fn lemma_bare_counts(x: Seq<EventView>, y: Seq<EventView>)
    requires
        bare_equal(x, y),
    ensures
        excluded_count(x) == excluded_count(y),
        printed_repos(x) == printed_repos(y),
    decreases x.len(),
{
    if x.len() > 0 {
        assert forall|k: int| 0 <= k < x.drop_last().len() implies bare(#[trigger] x.drop_last()[k])
            == bare(y.drop_last()[k]) by {
            assert(bare(x[k]) == bare(y[k]));
        }
        lemma_bare_counts(x.drop_last(), y.drop_last());
        assert(bare(x[x.len() - 1]) == bare(y[y.len() - 1]));
    }
}

/// Handles do not count for what events queue and name.
proof fn lemma_bare_says(x: Seq<EventView>, y: Seq<EventView>, p: Seq<u8>)
    requires
        bare_equal(x, y),
    ensures
        puts(x, p) ==> puts(y, p),
        names(x, p) ==> names(y, p),
{
    if puts(x, p) {
        let k = choose|k: int|
            0 <= k < x.len() && (#[trigger] x[k] matches EventView::Queue(q, _) && q == p);
        assert(bare(x[k]) == bare(y[k]));
        assert(y[k] matches EventView::Queue(q, _) && q == p);
    }
    if names(x, p) {
        let k = choose|k: int| 0 <= k < x.len() && #[trigger] x[k] == EventView::Repo(p);
        assert(bare(x[k]) == bare(y[k]));
        assert(y[k] == EventView::Repo(p));
    }
}

/// A walk that had other handles is a walk of this filesystem too.
proof fn lemma_walk_alike(
    states: Seq<Progress>,
    order: Seq<Seq<u8>>,
    a: World,
    b: World,
    rules: Rules,
)
    requires
        same_but_handles(a, b),
        is_walk(states, order, b, rules),
    ensures
        is_walk(states, order, a, rules),
{
    assert forall|k: int| 0 <= k < order.len() implies states[k].todo.contains(#[trigger] order[k])
        && states[k + 1] == after_reading(states[k], a, rules, order[k]) by {
        let d = order[k];
        let x = events_at(a, rules, d);
        let y = events_at(b, rules, d);
        lemma_alike(a, b, rules, d);
        assert forall|i: int| 0 <= i < y.len() implies bare(#[trigger] y[i]) == bare(x[i]) by {
            assert(bare(x[i]) == bare(y[i]));
        }
        let s = after_reading(states[k], a, rules, d);
        let t = after_reading(states[k], b, rules, d);
        assert forall|p: Seq<u8>| #[trigger] puts(x, p) == puts(y, p) by {
            lemma_bare_says(x, y, p);
            lemma_bare_says(y, x, p);
        }
        assert forall|p: Seq<u8>| #[trigger] names(x, p) == names(y, p) by {
            lemma_bare_says(x, y, p);
            lemma_bare_says(y, x, p);
        }
        assert(s.todo =~= t.todo);
        assert(s.found =~= t.found);
    }
}

/// The totals of reads are the same whatever the handles.
proof fn lemma_totals_alike(a: World, b: World, rules: Rules, reads: Seq<Seq<u8>>)
    requires
        same_but_handles(a, b),
    ensures
        excluded_total(a, rules, reads) == excluded_total(b, rules, reads),
        listing(a, rules, reads) == listing(b, rules, reads),
    decreases reads.len(),
{
    if reads.len() > 0 {
        lemma_totals_alike(a, b, rules, reads.drop_last());
        lemma_alike(a, b, rules, reads.last());
        lemma_bare_counts(events_at(a, rules, reads.last()), events_at(b, rules, reads.last()));
    }
}

/// The order of reading makes no difference to the total.
proof fn lemma_total_in_any_order(
    w: World,
    rules: Rules,
    reads: Seq<Seq<u8>>,
    others: Seq<Seq<u8>>,
)
    requires
        reads.no_duplicates(),
        others.no_duplicates(),
        reads.to_set() == others.to_set(),
    ensures
        excluded_total(w, rules, reads) == excluded_total(w, rules, others),
    decreases reads.len(),
{
    reads.unique_seq_to_set();
    others.unique_seq_to_set();
    if reads.len() > 0 {
        let d = reads.last();
        assert(reads.to_set().contains(d));
        let j = choose|j: int| 0 <= j < others.len() && others[j] == d;
        let front = reads.drop_last();
        let rest = others.remove(j);
        assert(front.to_set() =~= rest.to_set()) by {
            assert forall|x: Seq<u8>| front.to_set().contains(x) == rest.to_set().contains(x) by {
                if front.contains(x) {
                    let k = choose|k: int| 0 <= k < front.len() && front[k] == x;
                    assert(reads[k] == x);
                    assert(others.to_set().contains(x));
                    let l = choose|l: int| 0 <= l < others.len() && others[l] == x;
                    assert(x != d);
                    assert(rest[if l < j {
                        l
                    } else {
                        l - 1
                    }] == x);
                }
                if rest.contains(x) {
                    let k = choose|k: int| 0 <= k < rest.len() && rest[k] == x;
                    let l = if k < j {
                        k
                    } else {
                        k + 1
                    };
                    assert(others[l] == x);
                    assert(x != d);
                    assert(reads.to_set().contains(x));
                    let m = choose|m: int| 0 <= m < reads.len() && reads[m] == x;
                    assert(front[m] == x);
                }
            }
        }
        lemma_total_in_any_order(w, rules, front, rest);
        lemma_total_without(w, rules, others, j);
    }
}

/// One read's share of the total.
proof fn lemma_total_without(w: World, rules: Rules, reads: Seq<Seq<u8>>, j: int)
    requires
        0 <= j < reads.len(),
    ensures
        excluded_total(w, rules, reads) == excluded_total(w, rules, reads.remove(j))
            + excluded_count(events_at(w, rules, reads[j])),
    decreases reads.len(),
{
    if j == reads.len() - 1 {
        assert(reads.remove(j) =~= reads.drop_last());
    } else {
        lemma_total_without(w, rules, reads.drop_last(), j);
        assert(reads.remove(j).drop_last() =~= reads.drop_last().remove(j));
        assert(reads.remove(j).last() == reads.last());
    }
}

/// What one walk reads, a walk that has nothing left to read has read too.
proof fn lemma_read_too(
    states: Seq<Progress>,
    order: Seq<Seq<u8>>,
    other_states: Seq<Progress>,
    other_order: Seq<Seq<u8>>,
    w: World,
    rules: Rules,
    k: int,
)
    requires
        w.coherent(),
        w.well_named(),
        is_walk(states, order, w, rules),
        is_walk(other_states, other_order, w, rules),
        other_states.last().todo =~= Set::empty(),
        0 <= k < order.len(),
    ensures
        other_states.last().done.contains(order[k]),
    decreases k,
{
    let s = other_states.last();
    let p = order[k];
    lemma_sound_walk(
        other_states,
        other_order,
        w,
        rules,
        root_alone(),
        other_states.len() - 1,
    );
    assert(states[k].todo.contains(p));
    if p.len() == 0 {
        assert(p =~= Seq::empty());
        assert(root_alone().contains(p));
    } else {
        lemma_orderly_walk(states, order, w, rules, k);
        let d = choose|d: Seq<u8>|
            states[k].done.contains(d) && #[trigger] puts(events_at(w, rules, d), p);
        let j = choose|j: int| 0 <= j < order.take(k).len() && order.take(k)[j] == d;
        lemma_read_too(states, order, other_states, other_order, w, rules, j);
        assert(s.done.contains(d));
        assert(s.todo.contains(p) || s.done.contains(p));
    }
}

/// Neither the order of reading, nor how many workers there are, nor how many
/// directories may be open at a time makes a difference: two walks that have
/// nothing left to read, of filesystems that are the same but for the handles
/// that were to be had, find the same repositories, read the same
/// directories, each as often, exclude as many, and list the same.
pub proof fn law_handles_make_no_difference(
    states: Seq<Progress>,
    order: Seq<Seq<u8>>,
    a: World,
    other_states: Seq<Progress>,
    other_order: Seq<Seq<u8>>,
    b: World,
    rules: Rules,
)
    requires
        a.coherent(),
        a.well_named(),
        same_but_handles(a, b),
        is_walk(states, order, a, rules),
        states.last().todo =~= Set::empty(),
        is_walk(other_states, other_order, b, rules),
        other_states.last().todo =~= Set::empty(),
    ensures
        states.last().found == other_states.last().found,
        states.last().done == other_states.last().done,
        order.len() == other_order.len(),
        excluded_total(a, rules, order) == excluded_total(b, rules, other_order),
        listing(a, rules, order).to_multiset() == listing(b, rules, other_order).to_multiset(),
{
    lemma_walk_alike(other_states, other_order, a, b, rules);
    super::model::law_strategies_agree(
        states,
        order,
        rules,
        other_states,
        other_order,
        rules,
        a,
    );
    let n = states.len() - 1;
    let m = other_states.len() - 1;
    lemma_orderly_walk(states, order, a, rules, n);
    lemma_orderly_walk(other_states, other_order, a, rules, m);
    assert(order.take(n) =~= order);
    assert(other_order.take(m) =~= other_order);
    assert forall|d: Seq<u8>| states.last().done.contains(d) == #[trigger]
        other_states.last().done.contains(d) by {
        if order.contains(d) {
            let k = choose|k: int| 0 <= k < order.len() && order[k] == d;
            lemma_read_too(states, order, other_states, other_order, a, rules, k);
        }
        if other_order.contains(d) {
            let k = choose|k: int| 0 <= k < other_order.len() && other_order[k] == d;
            lemma_read_too(other_states, other_order, states, order, a, rules, k);
        }
    }
    assert(states.last().done =~= other_states.last().done);
    law_each_path_once(states, order, a, rules, order);
    law_each_path_once(other_states, other_order, a, rules, other_order);
    order.unique_seq_to_set();
    other_order.unique_seq_to_set();
    lemma_total_in_any_order(a, rules, order, other_order);
    lemma_totals_alike(a, b, rules, other_order);
    let x = listing(a, rules, order);
    let y = listing(a, rules, other_order);
    x.lemma_multiset_has_no_duplicates();
    y.lemma_multiset_has_no_duplicates();
    x.to_multiset_ensures();
    y.to_multiset_ensures();
    assert forall|p: Seq<u8>| #[trigger] x.to_multiset().count(p) == y.to_multiset().count(p) by {
        law_listing_is_the_repositories(states, order, a, rules, order, p);
        law_listing_is_the_repositories(other_states, other_order, a, rules, other_order, p);
        assert(x.contains(p) == y.contains(p));
    }
    assert(x.to_multiset() =~= y.to_multiset());
}

/// Whether no pattern matches a path, or one of the directories above it.
pub open spec fn is_spared(exclude: Seq<Pattern>, p: Seq<u8>) -> bool {
    &&& !excluded_by(exclude, p)
    &&& forall|a: Seq<u8>|
        a.len() > 0 && #[trigger] lies_below(p, a) ==> !excluded_by(exclude, a)
}

/// What lies above a directory lies above its entries.
proof fn lemma_below_trans(d: Seq<u8>, name: Seq<u8>, a: Seq<u8>)
    requires
        d.len() > 0,
        d == a || lies_below(d, a),
    ensures
        lies_below(below(d, name), a),
{
    let q = below(d, name);
    let n = a.len() as int;
    assert(q.take(n) =~= d.take(n));
    assert(d.take(n) =~= a);
}

/// The walk with exclusions gets to a directory exactly where the walk without
/// any does and no pattern matches the directory or one above it.
proof fn lemma_reached_spared(w: World, exclude: Seq<Pattern>, x: Seq<u8>)
    requires
        w.well_named(),
        x.len() > 0,
    ensures
        reached(w, exclude, x) <==> reached(w, Seq::empty(), x) && is_spared(exclude, x),
    decreases x.len(),
{
    let none = Seq::<Pattern>::empty();
    if reached(w, exclude, x) {
        let (d, i) = choose|d: Seq<u8>, i: int|
            d.len() < x.len() && #[trigger] enters(w, exclude, d, i, x) && reached(w, exclude, d);
        let name = (w.ents)(d)[i].name;
        assert(plain_name(name));
        assert(enters(w, none, d, i, x));
        if d.len() > 0 {
            lemma_reached_spared(w, exclude, d);
        }
        assert(reached(w, none, d));
        assert(reached(w, none, x));
        assert forall|a: Seq<u8>|
            a.len() > 0 && #[trigger] lies_below(x, a) implies !excluded_by(exclude, a) by {
            lemma_above(d, name, a);
        }
    }
    if reached(w, none, x) && is_spared(exclude, x) {
        let (d, i) = choose|d: Seq<u8>, i: int|
            d.len() < x.len() && #[trigger] enters(w, none, d, i, x) && reached(w, none, d);
        let name = (w.ents)(d)[i].name;
        if d.len() > 0 {
            assert(is_spared(exclude, d)) by {
                lemma_below_trans(d, name, d);
                assert forall|a: Seq<u8>|
                    a.len() > 0 && #[trigger] lies_below(d, a) implies !excluded_by(
                    exclude,
                    a,
                ) by {
                    lemma_below_trans(d, name, a);
                }
            }
            lemma_reached_spared(w, exclude, d);
        }
        assert(enters(w, exclude, d, i, x));
        assert(reached(w, exclude, d));
        assert(reached(w, exclude, x));
    }
}

/// Exclusion takes out what it matches and everything below that, and nothing
/// else: below a root that is no repository, a walk with exclusions finds
/// exactly those repositories of a walk without any of which no pattern
/// matches the path or a directory above it.
pub proof fn law_exclusion_takes_out_subtrees(w: World, exclude: Seq<Pattern>, p: Seq<u8>)
    requires
        w.coherent(),
        w.well_named(),
        !w.own_git(Seq::empty()),
    ensures
        repository(w, exclude, p) <==> repository(w, Seq::empty(), p) && is_spared(exclude, p),
{
    let none = Seq::<Pattern>::empty();
    if p.len() == 0 {
        assert(p =~= Seq::empty());
    }
    if repository(w, exclude, p) {
        let (d, i) = choose|d: Seq<u8>, i: int|
            reached(w, exclude, d) && #[trigger] yields(w, exclude, d, i, p);
        let name = (w.ents)(d)[i].name;
        assert(plain_name(name));
        if d.len() > 0 {
            lemma_reached_spared(w, exclude, d);
        }
        assert(yields(w, none, d, i, p));
        assert forall|a: Seq<u8>|
            a.len() > 0 && #[trigger] lies_below(p, a) implies !excluded_by(exclude, a) by {
            lemma_above(d, name, a);
        }
    }
    if repository(w, none, p) && is_spared(exclude, p) {
        let (d, i) = choose|d: Seq<u8>, i: int|
            reached(w, none, d) && #[trigger] yields(w, none, d, i, p);
        let name = (w.ents)(d)[i].name;
        if d.len() > 0 {
            assert(is_spared(exclude, d)) by {
                lemma_below_trans(d, name, d);
                assert forall|a: Seq<u8>|
                    a.len() > 0 && #[trigger] lies_below(d, a) implies !excluded_by(
                    exclude,
                    a,
                ) by {
                    lemma_below_trans(d, name, a);
                }
            }
            lemma_reached_spared(w, exclude, d);
        }
        assert(yields(w, exclude, d, i, p));
    }
}

} // verus!
