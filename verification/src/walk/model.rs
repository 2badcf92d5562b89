//! What a walk finds, whatever the strategy and whatever the order in which
//! directories are read.

use vstd::prelude::*;

use super::sys::{
    below, dir_events, entry_events, event_of, holds_git, is_denied, is_git_name,
    out_of_descriptors, verdict, DirFacts, EntView, EventView, Kind, Opened, Rules,
};
use super::{excluded_by, Pattern};

verus! {

/// The filesystem below a root as a walk can see it: the entries of every
/// directory, and what the system answers about them.
pub struct World {
    pub ents: spec_fn(Seq<u8>) -> Seq<EntView>,
    pub facts: spec_fn(Seq<u8>) -> DirFacts,
}

impl World {
    /// Whether the directory `d` is a repository by its own entries.
    pub open spec fn own_git(self, d: Seq<u8>) -> bool {
        holds_git((self.ents)(d), (self.facts)(d).git, 0)
    }

    /// The path of the entry number `i` of `d`.
    pub open spec fn child(self, d: Seq<u8>, i: int) -> Seq<u8> {
        below(d, (self.ents)(d)[i].name)
    }

    /// The kind of the entry number `i` of `d`, looked up where `readdir` did
    /// not give it.
    pub open spec fn kind_at(self, d: Seq<u8>, i: int) -> Kind {
        if (self.ents)(d)[i].kind is Unknown {
            match (self.facts)(d).entries[i].lstat {
                Some(kind) => kind,
                None => Kind::Other,
            }
        } else {
            (self.ents)(d)[i].kind
        }
    }

    /// Whether the child directory number `i` of `d` can be opened, now or
    /// later.
    pub open spec fn opens(self, d: Seq<u8>, i: int) -> bool {
        match (self.facts)(d).entries[i].open {
            Opened::Failed(e) => out_of_descriptors(e),
            _ => true,
        }
    }

    /// Whether the answers fit together: names are not empty; a child
    /// directory's `.git` can be `stat`ed from its parent exactly when the
    /// child's own entries make it a repository; and opening a directory
    /// whose `.git` can be `stat`ed fails only for want of a permission or of
    /// a descriptor.
    pub open spec fn coherent(self) -> bool {
        forall|d: Seq<u8>, i: int|
            0 <= i < (self.ents)(d).len() ==> {
                &&& (#[trigger] self.child(d, i)).len() > d.len()
                &&& self.kind_at(d, i) is Dir ==> {
                    &&& (self.facts)(d).entries[i].git == self.own_git(self.child(d, i))
                    &&& (self.facts)(d).entries[i].git && !self.opens(d, i) ==> is_denied(
                        (self.facts)(d).entries[i].open->Failed_0,
                    )
                }
            }
    }
}

/// Whether the walk goes from directory `d` into its entry number `i`, whose
/// path is `path`.
pub open spec fn enters(
    w: World,
    exclude: Seq<Pattern>,
    d: Seq<u8>,
    i: int,
    path: Seq<u8>,
) -> bool {
    &&& 0 <= i < (w.ents)(d).len()
    &&& !w.own_git(d)
    &&& w.kind_at(d, i) is Dir
    &&& path == w.child(d, i)
    &&& !excluded_by(exclude, path)
    &&& !is_git_name((w.ents)(d)[i].name)
    &&& w.opens(d, i)
}

/// Whether the walk gets to the directory `path`: every directory on the way
/// is entered, so none of them is a repository or excluded.
pub open spec fn reached(w: World, exclude: Seq<Pattern>, path: Seq<u8>) -> bool
    decreases path.len(),
{
    path.len() == 0 || exists|d: Seq<u8>, i: int|
        d.len() < path.len() && #[trigger] enters(w, exclude, d, i, path) && reached(w, exclude, d)
}

/// Whether the entry number `i` of `d`, whose path is `p`, is a repository: a
/// directory or a link to one, not excluded, whose name ends in `.git` or
/// which holds a `.git`.
pub open spec fn yields(w: World, exclude: Seq<Pattern>, d: Seq<u8>, i: int, p: Seq<u8>) -> bool {
    let facts = (w.facts)(d).entries[i];
    &&& 0 <= i < (w.ents)(d).len()
    &&& !w.own_git(d)
    &&& p == w.child(d, i)
    &&& !excluded_by(exclude, p)
    &&& w.kind_at(d, i) is Dir || (w.kind_at(d, i) is Symlink && facts.target == Ok::<
        bool,
        super::sys::Errno,
    >(true))
    &&& is_git_name((w.ents)(d)[i].name) || facts.git
}

/// The repositories below the root. Neither the detection strategy nor the
/// order of reading occurs here.
pub open spec fn repository(w: World, exclude: Seq<Pattern>, p: Seq<u8>) -> bool {
    (p.len() == 0 && w.own_git(p)) || exists|d: Seq<u8>, i: int|
        reached(w, exclude, d) && #[trigger] yields(w, exclude, d, i, p)
}

/// Whether a walk that starts at the directories `start` gets to the directory
/// `path`.
pub open spec fn reached_from(
    w: World,
    exclude: Seq<Pattern>,
    start: Set<Seq<u8>>,
    path: Seq<u8>,
) -> bool
    decreases path.len(),
{
    start.contains(path) || exists|d: Seq<u8>, i: int|
        d.len() < path.len() && #[trigger] enters(w, exclude, d, i, path) && reached_from(
            w,
            exclude,
            start,
            d,
        )
}

/// The repositories at and below the directories `start`.
pub open spec fn repository_from(
    w: World,
    exclude: Seq<Pattern>,
    start: Set<Seq<u8>>,
    p: Seq<u8>,
) -> bool {
    (start.contains(p) && w.own_git(p)) || exists|d: Seq<u8>, i: int|
        reached_from(w, exclude, start, d) && #[trigger] yields(w, exclude, d, i, p)
}

/// The root alone, where a walk of the whole root starts.
pub open spec fn root_alone() -> Set<Seq<u8>> {
    set![Seq::<u8>::empty()]
}

/// A walk under way: directories still to read, directories read, and
/// repositories found.
pub struct Progress {
    pub todo: Set<Seq<u8>>,
    pub done: Set<Seq<u8>>,
    pub found: Set<Seq<u8>>,
}

/// A walk from the directories `start` before anything was read.
pub open spec fn starting_at(start: Set<Seq<u8>>) -> Progress {
    Progress { todo: start, done: Set::empty(), found: Set::empty() }
}

/// What reading the directory `d` gives rise to.
pub open spec fn events_at(w: World, rules: Rules, d: Seq<u8>) -> Seq<EventView> {
    dir_events(d, (w.ents)(d), rules, (w.facts)(d))
}

/// Whether `events` put `p` on the queue.
pub open spec fn puts(events: Seq<EventView>, p: Seq<u8>) -> bool {
    exists|k: int|
        0 <= k < events.len() && (#[trigger] events[k] matches EventView::Queue(q, _) && q == p)
}

/// Whether `events` name the repository `p`.
pub open spec fn names(events: Seq<EventView>, p: Seq<u8>) -> bool {
    exists|k: int| 0 <= k < events.len() && #[trigger] events[k] == EventView::Repo(p)
}

/// The walk after one of the directories to read was read.
pub open spec fn after_reading(s: Progress, w: World, rules: Rules, d: Seq<u8>) -> Progress {
    let events = events_at(w, rules, d);
    Progress {
        todo: s.todo.remove(d).union(Set::new(|p: Seq<u8>| puts(events, p))),
        done: s.done.insert(d),
        found: s.found.union(Set::new(|p: Seq<u8>| names(events, p))),
    }
}

/// Whether `states` are the states of a walk that started at the directories
/// `start` and read the directories `order`, each of them one that was to be
/// read at that time. Any number of workers make such a walk: their reads
/// follow one another in some order.
pub open spec fn is_walk_from(
    states: Seq<Progress>,
    order: Seq<Seq<u8>>,
    w: World,
    rules: Rules,
    start: Set<Seq<u8>>,
) -> bool {
    &&& states.len() == order.len() + 1
    &&& states[0] == starting_at(start)
    &&& forall|k: int|
        0 <= k < order.len() ==> states[k].todo.contains(#[trigger] order[k]) && states[k + 1]
            == after_reading(states[k], w, rules, order[k])
}

/// Whether `states` are the states of a walk of the whole root.
pub open spec fn is_walk(
    states: Seq<Progress>,
    order: Seq<Seq<u8>>,
    w: World,
    rules: Rules,
) -> bool {
    is_walk_from(states, order, w, rules, root_alone())
}

/// The event of entry `i` is among the events from `from` on.
pub proof fn lemma_event_listed(
    rel: Seq<u8>,
    ents: Seq<EntView>,
    rules: Rules,
    facts: DirFacts,
    from: int,
    i: int,
    e: EventView,
)
    requires
        0 <= from <= i < ents.len(),
        event_of(
            below(rel, ents[i].name),
            verdict(ents[i], below(rel, ents[i].name), rules, facts.entries[i]),
        ) == seq![e],
    ensures
        exists|k: int|
            0 <= k < entry_events(rel, ents, rules, facts, from).len() && #[trigger] entry_events(
                rel,
                ents,
                rules,
                facts,
                from,
            )[k] == e,
    decreases i - from,
{
    let all = entry_events(rel, ents, rules, facts, from);
    let path = below(rel, ents[from].name);
    let head = event_of(path, verdict(ents[from], path, rules, facts.entries[from]));
    let tail = entry_events(rel, ents, rules, facts, from + 1);
    if from == i {
        assert(head[0] == e);
        assert(all[0] == e);
    } else {
        lemma_event_listed(rel, ents, rules, facts, from + 1, i, e);
        let k = choose|k: int| 0 <= k < tail.len() && #[trigger] tail[k] == e;
        assert(all[head.len() + k] == e);
    }
}

/// Every event from `from` on is the event of some entry.
pub proof fn lemma_event_source(
    rel: Seq<u8>,
    ents: Seq<EntView>,
    rules: Rules,
    facts: DirFacts,
    from: int,
    k: int,
) -> (i: int)
    requires
        0 <= from <= ents.len(),
        0 <= k < entry_events(rel, ents, rules, facts, from).len(),
    ensures
        from <= i < ents.len(),
        event_of(
            below(rel, ents[i].name),
            verdict(ents[i], below(rel, ents[i].name), rules, facts.entries[i]),
        ) == seq![entry_events(rel, ents, rules, facts, from)[k]],
    decreases ents.len() - from,
{
    let path = below(rel, ents[from].name);
    let head = event_of(path, verdict(ents[from], path, rules, facts.entries[from]));
    if k < head.len() {
        assert(head =~= seq![head[0]]);
        from
    } else {
        lemma_event_source(rel, ents, rules, facts, from + 1, k - head.len())
    }
}

/// What holds of a walk at every moment.
pub open spec fn sound(s: Progress, w: World, rules: Rules, start: Set<Seq<u8>>) -> bool {
    let exclude = rules.exclude@;
    &&& forall|d: Seq<u8>| #[trigger]
        start.contains(d) ==> s.todo.contains(d) || s.done.contains(d)
    &&& forall|d: Seq<u8>|
        #![trigger s.todo.contains(d)]
        #![trigger s.done.contains(d)]
        s.todo.contains(d) || s.done.contains(d) ==> reached_from(w, exclude, start, d)
    &&& forall|p: Seq<u8>| #[trigger]
        s.found.contains(p) ==> repository_from(w, exclude, start, p)
    &&& forall|d: Seq<u8>, p: Seq<u8>|
        #![trigger s.done.contains(d), puts(events_at(w, rules, d), p)]
        s.done.contains(d) && puts(events_at(w, rules, d), p) ==> s.todo.contains(p)
            || s.done.contains(p)
    &&& forall|d: Seq<u8>, p: Seq<u8>|
        #![trigger s.done.contains(d), names(events_at(w, rules, d), p)]
        s.done.contains(d) && names(events_at(w, rules, d), p) ==> s.found.contains(p)
}

/// A directory that reading `d` puts on the queue is reached.
proof fn lemma_put_is_reached(
    w: World,
    rules: Rules,
    start: Set<Seq<u8>>,
    d: Seq<u8>,
    p: Seq<u8>,
)
    requires
        w.coherent(),
        reached_from(w, rules.exclude@, start, d),
        puts(events_at(w, rules, d), p),
    ensures
        reached_from(w, rules.exclude@, start, p),
{
    let events = events_at(w, rules, d);
    let k = choose|k: int|
        0 <= k < events.len() && (#[trigger] events[k] matches EventView::Queue(q, _) && q == p);
    assert(!w.own_git(d));
    let i = lemma_event_source(d, (w.ents)(d), rules, (w.facts)(d), 0, k);
    assert(seq![events[k]][0] == events[k]);
    let v = verdict((w.ents)(d)[i], w.child(d, i), rules, (w.facts)(d).entries[i]);
    assert(v is Queue);
    assert(w.child(d, i).len() > d.len());
    assert(enters(w, rules.exclude@, d, i, p));
}

/// A repository that reading `d` names is one.
proof fn lemma_named_is_repository(
    w: World,
    rules: Rules,
    start: Set<Seq<u8>>,
    d: Seq<u8>,
    p: Seq<u8>,
)
    requires
        w.coherent(),
        reached_from(w, rules.exclude@, start, d),
        names(events_at(w, rules, d), p),
    ensures
        repository_from(w, rules.exclude@, start, p),
{
    let exclude = rules.exclude@;
    let events = events_at(w, rules, d);
    let k = choose|k: int| 0 <= k < events.len() && #[trigger] events[k] == EventView::Repo(p);
    if w.own_git(d) {
        assert(p == d);
        if !start.contains(d) {
            let (d2, i) = choose|d2: Seq<u8>, i: int|
                d2.len() < d.len() && #[trigger] enters(w, exclude, d2, i, d) && reached_from(
                    w,
                    exclude,
                    start,
                    d2,
                );
            assert(w.child(d2, i).len() > d2.len());
            assert(yields(w, exclude, d2, i, d));
        }
    } else {
        let i = lemma_event_source(d, (w.ents)(d), rules, (w.facts)(d), 0, k);
        assert(seq![events[k]][0] == events[k]);
        let v = verdict((w.ents)(d)[i], w.child(d, i), rules, (w.facts)(d).entries[i]);
        assert(v is Repo);
        assert(yields(w, exclude, d, i, p));
    }
}

proof fn lemma_sound_step(s: Progress, w: World, rules: Rules, start: Set<Seq<u8>>, d: Seq<u8>)
    requires
        w.coherent(),
        sound(s, w, rules, start),
        s.todo.contains(d),
    ensures
        sound(after_reading(s, w, rules, d), w, rules, start),
{
    let t = after_reading(s, w, rules, d);
    let exclude = rules.exclude@;
    assert forall|e: Seq<u8>| t.todo.contains(e) || t.done.contains(e) implies reached_from(
        w,
        exclude,
        start,
        e,
    ) by {
        if !s.todo.contains(e) && !s.done.contains(e) && e != d {
            lemma_put_is_reached(w, rules, start, d, e);
        }
    }
    assert forall|p: Seq<u8>| #[trigger] t.found.contains(p) implies repository_from(
        w,
        exclude,
        start,
        p,
    ) by {
        if !s.found.contains(p) {
            lemma_named_is_repository(w, rules, start, d, p);
        }
    }
    assert forall|e: Seq<u8>, p: Seq<u8>|
        #![trigger t.done.contains(e), puts(events_at(w, rules, e), p)]
        t.done.contains(e) && puts(events_at(w, rules, e), p) implies t.todo.contains(p)
        || t.done.contains(p) by {
        if e != d {
            assert(s.done.contains(e));
            assert(s.todo.contains(p) || s.done.contains(p));
        }
    }
    assert forall|e: Seq<u8>, p: Seq<u8>|
        #![trigger t.done.contains(e), names(events_at(w, rules, e), p)]
        t.done.contains(e) && names(events_at(w, rules, e), p) implies t.found.contains(p) by {
        if e != d {
            assert(s.done.contains(e));
        }
    }
}

/// Every state of a walk is sound.
pub proof fn lemma_sound_walk(
    states: Seq<Progress>,
    order: Seq<Seq<u8>>,
    w: World,
    rules: Rules,
    start: Set<Seq<u8>>,
    k: int,
)
    requires
        w.coherent(),
        is_walk_from(states, order, w, rules, start),
        0 <= k < states.len(),
    ensures
        sound(states[k], w, rules, start),
    decreases k,
{
    if k > 0 {
        lemma_sound_walk(states, order, w, rules, start, k - 1);
        assert(states[k - 1].todo.contains(order[k - 1]));
        lemma_sound_step(states[k - 1], w, rules, start, order[k - 1]);
    }
}

/// When nothing is left to read, every reached directory that is not a
/// repository has been read.
pub proof fn lemma_all_read(
    s: Progress,
    w: World,
    rules: Rules,
    start: Set<Seq<u8>>,
    d: Seq<u8>,
)
    requires
        w.coherent(),
        sound(s, w, rules, start),
        s.todo =~= Set::empty(),
        reached_from(w, rules.exclude@, start, d),
        !w.own_git(d),
    ensures
        s.done.contains(d),
    decreases d.len(),
{
    let exclude = rules.exclude@;
    if !start.contains(d) {
        let (d2, i) = choose|d2: Seq<u8>, i: int|
            d2.len() < d.len() && #[trigger] enters(w, exclude, d2, i, d) && reached_from(
                w,
                exclude,
                start,
                d2,
            );
        lemma_all_read(s, w, rules, start, d2);
        assert(w.child(d2, i).len() > d2.len());
        let v = verdict((w.ents)(d2)[i], d, rules, (w.facts)(d2).entries[i]);
        assert(v is Queue);
        let e = EventView::Queue(d, v->Queue_0);
        lemma_event_listed(d2, (w.ents)(d2), rules, (w.facts)(d2), 0, i, e);
        assert(puts(events_at(w, rules, d2), d));
    }
}

/// A walk that has nothing left to read has found exactly the repositories at
/// and below the directories where it started: the strategy, the order in
/// which directories were read and so the number of workers make no
/// difference to what it found.
pub proof fn law_walk_from_finds_every_repository(
    states: Seq<Progress>,
    order: Seq<Seq<u8>>,
    w: World,
    rules: Rules,
    start: Set<Seq<u8>>,
    p: Seq<u8>,
)
    requires
        w.coherent(),
        is_walk_from(states, order, w, rules, start),
        states.last().todo =~= Set::empty(),
    ensures
        states.last().found.contains(p) <==> repository_from(w, rules.exclude@, start, p),
{
    let exclude = rules.exclude@;
    let s = states.last();
    lemma_sound_walk(states, order, w, rules, start, states.len() - 1);
    if repository_from(w, exclude, start, p) {
        if start.contains(p) && w.own_git(p) {
            assert(events_at(w, rules, p)[0] == EventView::Repo(p));
            assert(names(events_at(w, rules, p), p));
            assert(s.done.contains(p));
        } else {
            let (d, i) = choose|d: Seq<u8>, i: int|
                reached_from(w, exclude, start, d) && #[trigger] yields(w, exclude, d, i, p);
            lemma_all_read(s, w, rules, start, d);
            assert(w.child(d, i).len() > d.len());
            let v = verdict((w.ents)(d)[i], p, rules, (w.facts)(d).entries[i]);
            if v is Repo {
                lemma_event_listed(
                    d,
                    (w.ents)(d),
                    rules,
                    (w.facts)(d),
                    0,
                    i,
                    EventView::Repo(p),
                );
                assert(names(events_at(w, rules, d), p));
            } else {
                assert(v is Queue);
                lemma_event_listed(
                    d,
                    (w.ents)(d),
                    rules,
                    (w.facts)(d),
                    0,
                    i,
                    EventView::Queue(p, v->Queue_0),
                );
                assert(puts(events_at(w, rules, d), p));
                assert(s.done.contains(p));
                assert(w.own_git(p));
                assert(events_at(w, rules, p)[0] == EventView::Repo(p));
                assert(names(events_at(w, rules, p), p));
            }
        }
    }
}

/// Every directory that a walk gets to is reached from the root.
pub proof fn lemma_reached_from_root(w: World, exclude: Seq<Pattern>, x: Seq<u8>)
    ensures
        reached_from(w, exclude, root_alone(), x) <==> reached(w, exclude, x),
    decreases x.len(),
{
    if x.len() == 0 {
        assert(x =~= Seq::empty());
    } else {
        if reached(w, exclude, x) {
            let (d, i) = choose|d: Seq<u8>, i: int|
                d.len() < x.len() && #[trigger] enters(w, exclude, d, i, x) && reached(
                    w,
                    exclude,
                    d,
                );
            lemma_reached_from_root(w, exclude, d);
            assert(enters(w, exclude, d, i, x) && reached_from(w, exclude, root_alone(), d));
        }
        if reached_from(w, exclude, root_alone(), x) {
            let (d, i) = choose|d: Seq<u8>, i: int|
                d.len() < x.len() && #[trigger] enters(w, exclude, d, i, x) && reached_from(
                    w,
                    exclude,
                    root_alone(),
                    d,
                );
            lemma_reached_from_root(w, exclude, d);
            assert(enters(w, exclude, d, i, x) && reached(w, exclude, d));
        }
    }
}

/// The repositories from the root on are those below the root.
pub proof fn lemma_repository_from_root(w: World, exclude: Seq<Pattern>, p: Seq<u8>)
    ensures
        repository_from(w, exclude, root_alone(), p) <==> repository(w, exclude, p),
{
    if p.len() == 0 {
        assert(p =~= Seq::empty());
    }
    if repository(w, exclude, p) && !(p.len() == 0 && w.own_git(p)) {
        let (d, i) = choose|d: Seq<u8>, i: int|
            reached(w, exclude, d) && #[trigger] yields(w, exclude, d, i, p);
        lemma_reached_from_root(w, exclude, d);
    }
    if repository_from(w, exclude, root_alone(), p) && !(p.len() == 0 && w.own_git(p)) {
        let (d, i) = choose|d: Seq<u8>, i: int|
            reached_from(w, exclude, root_alone(), d) && #[trigger] yields(w, exclude, d, i, p);
        lemma_reached_from_root(w, exclude, d);
    }
}

/// A walk of the whole root that has nothing left to read has found exactly
/// the repositories below it.
pub proof fn law_walk_finds_every_repository(
    states: Seq<Progress>,
    order: Seq<Seq<u8>>,
    w: World,
    rules: Rules,
    p: Seq<u8>,
)
    requires
        w.coherent(),
        is_walk(states, order, w, rules),
        states.last().todo =~= Set::empty(),
    ensures
        states.last().found.contains(p) <==> repository(w, rules.exclude@, p),
{
    law_walk_from_finds_every_repository(states, order, w, rules, root_alone(), p);
    lemma_repository_from_root(w, rules.exclude@, p);
}

/// Two walks of one tree under the same exclusions find the same
/// repositories, each in its own order and with its own strategy.
pub proof fn law_strategies_agree(
    states: Seq<Progress>,
    order: Seq<Seq<u8>>,
    rules: Rules,
    other_states: Seq<Progress>,
    other_order: Seq<Seq<u8>>,
    other_rules: Rules,
    w: World,
)
    requires
        w.coherent(),
        rules.exclude@ == other_rules.exclude@,
        is_walk(states, order, w, rules),
        states.last().todo =~= Set::empty(),
        is_walk(other_states, other_order, w, other_rules),
        other_states.last().todo =~= Set::empty(),
    ensures
        states.last().found == other_states.last().found,
{
    assert forall|p: Seq<u8>|
        states.last().found.contains(p) == other_states.last().found.contains(p) by {
        law_walk_finds_every_repository(states, order, w, rules, p);
        law_walk_finds_every_repository(other_states, other_order, w, other_rules, p);
    }
    assert(states.last().found =~= other_states.last().found);
}

/// A directory that is a repository is left as one: nothing inside it is
/// read, so nothing inside it is found.
pub proof fn law_nothing_inside_a_repository(w: World, rules: Rules, d: Seq<u8>)
    requires
        w.own_git(d),
    ensures
        events_at(w, rules, d) == seq![EventView::Repo(d)],
        forall|i: int, p: Seq<u8>| !#[trigger] enters(w, rules.exclude@, d, i, p),
        forall|i: int, p: Seq<u8>| !#[trigger] yields(w, rules.exclude@, d, i, p),
{
}

} // verus!
