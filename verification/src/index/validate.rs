//! Deciding, entry by entry, whether an index is still true.

use vstd::prelude::*;
use vstd::slice::slice_to_vec;

use super::assemble::{base_name, basename};
use super::format::{claimed, entries_plain, is_tree, Entry, EntryView, Index, IndexView};
use crate::bytes::{ends_with, find_byte, push_all, DOT};
use crate::walk::sys::{is_git_name, type_of_mode, Kind, GIT_NAME};
use crate::walk::{record_views, Record, RecordView};

verus! {

/// How close to the index's own write time an observed mtime may sit before
/// the entry is treated as changed regardless of what it says: two seconds
/// cover filesystems whose granularity is a second and whose clock rounds.
pub const RACY_WINDOW_NS: i64 = 2_000_000_000;

/// What one entry's `stat` found.
#[derive(Clone, Copy, PartialEq, Eq, Structural, Debug)]
pub enum Probe {
    /// Still a directory, with this mtime.
    Dir(i64),
    /// Still a repository.
    Repo,
    /// Gone, replaced, or no longer a repository.
    Stale,
}

/// Whether an observed mtime is too close to the index's write time to be
/// evidence; one after it is too.
pub open spec fn racy(observed_ns: int, written_ns: int) -> bool {
    observed_ns > (if written_ns - RACY_WINDOW_NS < i64::MIN {
        i64::MIN as int
    } else {
        written_ns - RACY_WINDOW_NS
    })
}

/// Whether an observed mtime is too close to the index's write time to be
/// evidence.
pub fn is_racy(observed_ns: i64, written_ns: i64) -> (r: bool)
    ensures
        r == racy(observed_ns as int, written_ns as int),
{
    let edge: i64 = if written_ns < i64::MIN + RACY_WINDOW_NS {
        i64::MIN
    } else {
        written_ns - RACY_WINDOW_NS
    };
    observed_ns > edge
}

/// What the validation pass concludes about one entry.
pub enum Fate {
    /// A repository that is still there.
    KeepRepo,
    /// A directory with the mtime it was read with.
    KeepDir(i64),
    /// The recorded mtime, but too recent to be evidence.
    Racy,
    /// Anything else.
    Changed,
}

/// What a probe says about an entry of an index written at `written_ns`.
pub open spec fn fate(entry: EntryView, probe: Probe, written_ns: i64) -> Fate {
    match (probe, entry.mtime_ns) {
        (Probe::Repo, _) => Fate::KeepRepo,
        (Probe::Dir(observed), Some(recorded)) => if observed == recorded {
            if racy(observed as int, written_ns as int) {
                Fate::Racy
            } else {
                Fate::KeepDir(observed)
            }
        } else {
            Fate::Changed
        },
        _ => Fate::Changed,
    }
}

/// What the probe of the entry number `i` says about it.
pub open spec fn fate_at(index: IndexView, probes: Seq<Probe>, i: int) -> Fate {
    fate(index.entries[i], probes[i], index.written_ns)
}

/// Whether the directory `p` validated and lists `i` among its children.
pub open spec fn leads_to(index: IndexView, probes: Seq<Probe>, p: int, k: int, i: int) -> bool {
    &&& 0 <= p < index.entries.len()
    &&& fate_at(index, probes, p) is KeepDir
    &&& 0 <= k < index.entries[p].children.len()
    &&& index.entries[p].children[k] == i
}

/// Whether an entry may be consulted at all: it is the root, or a directory
/// that may be consulted validated and lists it. An unchanged mtime says
/// that the child set is unchanged, so nothing below a directory that did
/// not validate is believed.
pub open spec fn consulted(index: IndexView, probes: Seq<Probe>, i: int) -> bool
    decreases i,
{
    i == 0 || exists|p: int, k: int|
        p < i && #[trigger] leads_to(index, probes, p, k, i) && consulted(index, probes, p)
}

/// The records of the entries that `seen` lists and that validated, with the
/// mtimes just observed.
pub open spec fn kept_records(index: IndexView, probes: Seq<Probe>, seen: Seq<int>) -> Seq<
    RecordView,
>
    decreases seen.len(),
{
    if seen.len() == 0 {
        Seq::empty()
    } else {
        let rest = kept_records(index, probes, seen.drop_last());
        let rel = index.entries[seen.last()].rel;
        match fate_at(index, probes, seen.last()) {
            Fate::KeepRepo => rest.push(RecordView { rel, mtime_ns: None }),
            Fate::KeepDir(mtime) => rest.push(RecordView { rel, mtime_ns: Some(mtime) }),
            _ => rest,
        }
    }
}

/// The paths of the entries that `seen` lists and that did not validate.
pub open spec fn stale_paths(index: IndexView, probes: Seq<Probe>, seen: Seq<int>) -> Seq<Seq<u8>>
    decreases seen.len(),
{
    if seen.len() == 0 {
        Seq::empty()
    } else {
        let rest = stale_paths(index, probes, seen.drop_last());
        match fate_at(index, probes, seen.last()) {
            Fate::Racy | Fate::Changed => rest.push(index.entries[seen.last()].rel),
            _ => rest,
        }
    }
}

/// How many of the entries that `seen` lists are too recent to be evidence.
pub open spec fn racy_count(index: IndexView, probes: Seq<Probe>, seen: Seq<int>) -> nat
    decreases seen.len(),
{
    if seen.len() == 0 {
        0
    } else {
        racy_count(index, probes, seen.drop_last()) + if fate_at(
            index,
            probes,
            seen.last(),
        ) is Racy {
            1nat
        } else {
            0
        }
    }
}

/// Whether `seen` lists every entry that may be consulted, each once.
pub open spec fn is_visit(index: IndexView, probes: Seq<Probe>, seen: Seq<int>) -> bool {
    &&& seen.no_duplicates()
    &&& forall|i: int| #[trigger]
        seen.contains(i) <==> 0 <= i < index.entries.len() && consulted(index, probes, i)
}

/// What the top-down validation pass concluded.
#[derive(Debug)]
pub struct Outcome {
    /// Entries that validated, with the mtimes just observed.
    pub fresh: Vec<Record>,
    /// Root-relative paths handed back to the walker.
    pub stale: Vec<Vec<u8>>,
    pub hits: usize,
    pub racy: usize,
}

/// Whether `out` is what the pass concludes, its entries in the order `seen`.
pub open spec fn concludes(
    out: Outcome,
    index: IndexView,
    probes: Seq<Probe>,
    seen: Seq<int>,
) -> bool {
    &&& record_views(out.fresh@) == kept_records(index, probes, seen)
    &&& crate::bytes::views(out.stale@) == stale_paths(index, probes, seen)
    &&& out.hits == kept_records(index, probes, seen).len()
    &&& out.racy == racy_count(index, probes, seen)
}

/// Distinct indices below `n` are at most `n`.
proof fn lemma_distinct_bound(seen: Seq<int>, n: nat)
    requires
        seen.no_duplicates(),
        forall|k: int| 0 <= k < seen.len() ==> 0 <= #[trigger] seen[k] < n,
    ensures
        seen.len() <= n,
{
    seen.unique_seq_to_set();
    let full = vstd::set_lib::set_int_range(0, n as int);
    vstd::set_lib::lemma_int_range(0, n as int);
    assert(seen.to_set().subset_of(full));
    vstd::set_lib::lemma_len_subset(seen.to_set(), full);
}

/// The indices on the stack.
spec fn ints(stack: Seq<u32>) -> Seq<int> {
    Seq::new(stack.len(), |k: int| stack[k] as int)
}

/// What holds between the entries seen and those still on the stack.
#[verifier::opaque]
spec fn on_track(index: IndexView, probes: Seq<Probe>, seen: Seq<int>, stack: Seq<int>) -> bool {
    let all = seen + stack;
    &&& all.no_duplicates()
    &&& all.contains(0)
    &&& forall|x: int| #[trigger]
        all.contains(x) ==> 0 <= x < index.entries.len() && consulted(index, probes, x) && (x == 0
            || has_seen_parent(index, probes, seen, x))
    &&& forall|p: int, k: int, x: int|
        seen.contains(p) && #[trigger] leads_to(index, probes, p, k, x) ==> all.contains(x)
}

/// Whether a seen entry leads to `i`.
spec fn has_seen_parent(index: IndexView, probes: Seq<Probe>, seen: Seq<int>, i: int) -> bool {
    exists|p: int, k: int| seen.contains(p) && #[trigger] leads_to(index, probes, p, k, i)
}

/// When the stack is empty, everything that may be consulted was.
proof fn lemma_visit_complete(index: IndexView, probes: Seq<Probe>, seen: Seq<int>, i: int)
    requires
        is_tree(index.entries),
        on_track(index, probes, seen, Seq::empty()),
        0 <= i < index.entries.len(),
        consulted(index, probes, i),
    ensures
        seen.contains(i),
    decreases i,
{
    reveal(on_track);
    assert(seen + Seq::<int>::empty() =~= seen);
    if i != 0 {
        let (p, k) = choose|p: int, k: int|
            p < i && #[trigger] leads_to(index, probes, p, k, i) && consulted(index, probes, p);
        lemma_visit_complete(index, probes, seen, p);
    }
}

/// What the entry taken off the stack puts on it.
spec fn pushed(index: IndexView, probes: Seq<Probe>, i: int) -> Seq<int> {
    if fate_at(index, probes, i) is KeepDir {
        ints(index.entries[i].children)
    } else {
        Seq::empty()
    }
}

/// Moving the last element of `stack` to the end of `seen` and adding `new`
/// behind changes membership by `new` alone.
proof fn lemma_members(seen: Seq<int>, stack: Seq<int>, new: Seq<int>, x: int)
    requires
        stack.len() > 0,
    ensures
        (seen.push(stack.last()) + (stack.drop_last() + new)).contains(x) <==> (seen
            + stack).contains(x) || new.contains(x),
{
    let i = stack.last();
    let n = seen.len() as int;
    let m = stack.len() as int;
    let all = seen + stack;
    let all2 = seen.push(i) + (stack.drop_last() + new);
    if all.contains(x) {
        let k = choose|k: int| 0 <= k < all.len() && all[k] == x;
        if k < n {
            assert(all2[k] == x);
        } else if k == n + m - 1 {
            assert(all2[n] == x);
        } else {
            assert(all2[k + 1] == x);
        }
    }
    if new.contains(x) {
        let k = choose|k: int| 0 <= k < new.len() && new[k] == x;
        assert(all2[n + m + k] == x);
    }
    if all2.contains(x) {
        let k = choose|k: int| 0 <= k < all2.len() && all2[k] == x;
        if k < n {
            assert(all[k] == x);
        } else if k == n {
            assert(all[n + m - 1] == x);
        } else if k < n + m {
            assert(all[k - 1] == x);
        } else {
            assert(new[k - n - m] == x);
        }
    }
}

/// Moving the last element of `stack` to the end of `seen` and adding `new`
/// elements that occur in neither keeps them distinct.
proof fn lemma_distinct(seen: Seq<int>, stack: Seq<int>, new: Seq<int>)
    requires
        stack.len() > 0,
        (seen + stack).no_duplicates(),
        new.no_duplicates(),
        forall|x: int| #[trigger] new.contains(x) ==> !(seen + stack).contains(x),
    ensures
        (seen.push(stack.last()) + (stack.drop_last() + new)).no_duplicates(),
{
    let i = stack.last();
    let n = seen.len() as int;
    let m = stack.len() as int;
    let all = seen + stack;
    let all2 = seen.push(i) + (stack.drop_last() + new);
    let place = |k: int|
        if k < n {
            k
        } else if k == n {
            n + m - 1
        } else {
            k - 1
        };
    assert forall|a: int, b: int| 0 <= a < all2.len() && 0 <= b < all2.len() && a != b implies
        all2[a] != all2[b] by {
        if a < n + m && b < n + m {
            assert(all2[a] == all[place(a)]);
            assert(all2[b] == all[place(b)]);
            assert(place(a) != place(b));
        } else if a >= n + m && b >= n + m {
            assert(all2[a] == new[a - n - m]);
            assert(all2[b] == new[b - n - m]);
        } else if a < n + m {
            assert(all2[a] == all[place(a)]);
            assert(all2[b] == new[b - n - m]);
            assert(new.contains(all2[b]));
        } else {
            assert(all2[b] == all[place(b)]);
            assert(all2[a] == new[a - n - m]);
            assert(new.contains(all2[a]));
        }
    }
}

/// The children that an unseen entry pushes are new: each has that entry as
/// its only parent.
proof fn lemma_children_new(
    index: IndexView,
    probes: Seq<Probe>,
    seen: Seq<int>,
    stack: Seq<int>,
    i: int,
)
    requires
        is_tree(index.entries),
        on_track(index, probes, seen, stack),
        0 <= i < index.entries.len(),
        !seen.contains(i),
    ensures
        pushed(index, probes, i).no_duplicates(),
        forall|x: int| #[trigger]
            pushed(index, probes, i).contains(x) ==> i < x < index.entries.len() && !(seen
                + stack).contains(x) && exists|k: int| leads_to(index, probes, i, k, x),
{
    reveal(on_track);
    let new = pushed(index, probes, i);
    let all = seen + stack;
    assert forall|a: int, b: int| 0 <= a < new.len() && 0 <= b < new.len() && a != b implies new[a]
        != new[b] by {
        assert(index.entries[i].children[a] == new[a]);
        assert(index.entries[i].children[b] == new[b]);
    }
    assert forall|x: int| #[trigger] new.contains(x) implies i < x < index.entries.len()
        && !all.contains(x) && exists|k: int| leads_to(index, probes, i, k, x) by {
        let k = choose|k: int| 0 <= k < new.len() && new[k] == x;
        assert(index.entries[i].children[k] == x);
        assert(i < index.entries[i].children[k] < index.entries.len());
        assert(leads_to(index, probes, i, k, x));
        if all.contains(x) {
            assert(has_seen_parent(index, probes, seen, x));
            let (p, k2) = choose|p: int, k2: int|
                seen.contains(p) && #[trigger] leads_to(index, probes, p, k2, x);
            assert(index.entries[p].children[k2] == index.entries[i].children[k]);
        }
    }
}

/// Taking one entry off the stack keeps the pass on track.
proof fn lemma_step(index: IndexView, probes: Seq<Probe>, seen: Seq<int>, stack: Seq<int>)
    requires
        is_tree(index.entries),
        on_track(index, probes, seen, stack),
        stack.len() > 0,
    ensures
        0 <= stack.last() < index.entries.len(),
        !seen.contains(stack.last()),
        on_track(
            index,
            probes,
            seen.push(stack.last()),
            stack.drop_last() + pushed(index, probes, stack.last()),
        ),
{
    let i = stack.last();
    let new = pushed(index, probes, i);
    let all = seen + stack;
    let seen2 = seen.push(i);
    let all2 = seen2 + (stack.drop_last() + new);
    assert(all.contains(i) && !seen.contains(i)) by {
        reveal(on_track);
        assert(all[all.len() - 1] == i);
        if seen.contains(i) {
            let k = choose|k: int| 0 <= k < seen.len() && seen[k] == i;
            assert(all[k] == i);
        }
    }
    assert(0 <= i < index.entries.len()) by {
        reveal(on_track);
    }
    lemma_children_new(index, probes, seen, stack, i);
    assert(all.no_duplicates()) by {
        reveal(on_track);
    }
    lemma_distinct(seen, stack, new);
    assert forall|x: int| #[trigger] all2.contains(x) <==> all.contains(x) || new.contains(x) by {
        lemma_members(seen, stack, new, x);
    }
    assert forall|x: int| seen.contains(x) implies #[trigger] seen2.contains(x) by {
        let k = choose|k: int| 0 <= k < seen.len() && seen[k] == x;
        assert(seen2[k] == x);
    }
    assert(seen2.contains(i)) by {
        assert(seen2[seen.len() as int] == i);
    }
    assert(on_track(index, probes, seen2, stack.drop_last() + new)) by {
        reveal(on_track);
        assert forall|x: int| #[trigger] all2.contains(x) implies 0 <= x < index.entries.len()
            && consulted(index, probes, x) && (x == 0 || has_seen_parent(
            index,
            probes,
            seen2,
            x,
        )) by {
            if all.contains(x) {
                if x != 0 {
                    let (p, k) = choose|p: int, k: int|
                        seen.contains(p) && #[trigger] leads_to(index, probes, p, k, x);
                    assert(seen2.contains(p) && leads_to(index, probes, p, k, x));
                }
            } else {
                assert(new.contains(x));
                let k = choose|k: int| leads_to(index, probes, i, k, x);
                assert(seen2.contains(i) && leads_to(index, probes, i, k, x));
                assert(consulted(index, probes, i));
            }
        }
        assert forall|p: int, k: int, x: int|
            seen2.contains(p) && #[trigger] leads_to(
                index,
                probes,
                p,
                k,
                x,
            ) implies all2.contains(x) by {
            if p == i {
                assert(new[k] == x);
                assert(new.contains(x));
            } else {
                let j = choose|j: int| 0 <= j < seen2.len() && seen2[j] == p;
                assert(seen[j] == p);
                assert(seen.contains(p));
            }
        }
    }
}

/// Goes through the recorded tree from the top, deciding per entry between
/// "reuse" and "re-walk".
pub fn walk_index(index: &Index, probes: &Vec<Probe>) -> (r: Outcome)
    requires
        is_tree(index@.entries),
        probes@.len() == index@.entries.len(),
    ensures
        exists|seen: Seq<int>|
            #![trigger is_visit(index@, probes@, seen)]
            is_visit(index@, probes@, seen) && concludes(r, index@, probes@, seen),
{
    let ghost iv = index@;
    let ghost pv = probes@;
    let ghost mut seen: Seq<int> = Seq::empty();
    let mut out = Outcome { fresh: Vec::new(), stale: Vec::new(), hits: 0, racy: 0 };
    let mut stack: Vec<u32> = Vec::new();
    stack.push(0);
    proof {
        assert(record_views(out.fresh@) =~= kept_records(iv, pv, seen));
        assert(crate::bytes::views(out.stale@) =~= stale_paths(iv, pv, seen));
        assert(on_track(iv, pv, seen, ints(stack@))) by {
            reveal(on_track);
            let all = seen + ints(stack@);
            assert(all[0] == 0);
        }
    }
    while stack.len() > 0
        invariant
            iv == index@,
            pv == probes@,
            is_tree(iv.entries),
            iv.entries.len() == index.entries@.len(),
            probes@.len() == index.entries@.len(),
            on_track(iv, pv, seen, ints(stack@)),
            concludes(out, iv, pv, seen),
            kept_records(iv, pv, seen).len() <= seen.len(),
            racy_count(iv, pv, seen) <= seen.len(),
            seen.len() <= iv.entries.len(),
        decreases iv.entries.len() - seen.len(),
    {
        let ghost before = ints(stack@);
        let ghost before_seen = seen;
        let i: usize = match stack.pop() {
            Some(i) => i as usize,
            None => 0,
        };
        proof {
            assert(before.last() == i);
            assert(ints(stack@) =~= before.drop_last());
            lemma_step(iv, pv, seen, before);
            seen = seen.push(i as int);
            assert(seen.drop_last() =~= before_seen);
            assert(seen.no_duplicates() && forall|k: int|
                0 <= k < seen.len() ==> 0 <= #[trigger] seen[k] < iv.entries.len()) by {
                reveal(on_track);
                let all = seen + (before.drop_last() + pushed(iv, pv, i as int));
                assert forall|k: int| 0 <= k < seen.len() implies 0 <= #[trigger] seen[k]
                    < iv.entries.len() by {
                    assert(all[k] == seen[k]);
                    assert(all.contains(seen[k]));
                }
                assert forall|k: int, l: int| 0 <= k < seen.len() && 0 <= l < seen.len() && k
                    != l implies seen[k] != seen[l] by {
                    assert(all[k] != all[l]);
                }
            }
            lemma_distinct_bound(seen, iv.entries.len());
            assert(iv.entries[i as int] == index.entries@[i as int]@);
            assert(before_seen.len() < index.entries.len());
        }
        let entry = &index.entries[i];
        match (probes[i], entry.mtime_ns) {
            (Probe::Repo, _) => {
                out.hits = out.hits + 1;
                out.fresh.push(Record::repo(entry.rel.as_slice()));
                proof {
                    assert(record_views(out.fresh@) =~= kept_records(iv, pv, seen));
                    assert(ints(stack@) =~= before.drop_last() + pushed(iv, pv, i as int));
                }
            },
            (Probe::Dir(observed), Some(recorded)) => {
                if observed == recorded && !is_racy(observed, index.written_ns) {
                    out.hits = out.hits + 1;
                    out.fresh.push(Record::dir(entry.rel.as_slice(), observed));
                    stack.extend_from_slice(entry.children.as_slice());
                    proof {
                        assert(record_views(out.fresh@) =~= kept_records(iv, pv, seen));
                        assert(ints(stack@) =~= before.drop_last() + pushed(iv, pv, i as int));
                    }
                } else {
                    if observed == recorded {
                        out.racy = out.racy + 1;
                    }
                    out.stale.push(slice_to_vec(entry.rel.as_slice()));
                    proof {
                        assert(crate::bytes::views(out.stale@) =~= stale_paths(iv, pv, seen));
                        assert(ints(stack@) =~= before.drop_last() + pushed(iv, pv, i as int));
                    }
                }
            },
            _ => {
                out.stale.push(slice_to_vec(entry.rel.as_slice()));
                proof {
                    assert(crate::bytes::views(out.stale@) =~= stale_paths(iv, pv, seen));
                    assert(ints(stack@) =~= before.drop_last() + pushed(iv, pv, i as int));
                }
            },
        }
    }
    proof {
        assert(ints(stack@) =~= Seq::empty());
        assert(seen.no_duplicates()) by {
            reveal(on_track);
            assert(seen + Seq::<int>::empty() =~= seen);
        }
        assert forall|i: int| #[trigger] seen.contains(i) <==> 0 <= i < iv.entries.len()
            && consulted(iv, pv, i) by {
            if seen.contains(i) {
                reveal(on_track);
                assert(seen + Seq::<int>::empty() =~= seen);
            }
            if 0 <= i < iv.entries.len() && consulted(iv, pv, i) {
                lemma_visit_complete(iv, pv, seen, i);
            }
        }
        assert(is_visit(iv, pv, seen));
    }
    out
}

/// An entry below a directory that did not validate is never believed: of
/// every entry but the root that may be consulted, some directory lists it
/// whose own mtime is the recorded one and old enough to be evidence.
pub proof fn law_only_validated_directories_are_believed(
    index: IndexView,
    probes: Seq<Probe>,
    i: int,
)
    requires
        is_tree(index.entries),
        probes.len() == index.entries.len(),
        0 < i < index.entries.len(),
        consulted(index, probes, i),
    ensures
        exists|p: int, k: int| #[trigger]
            leads_to(index, probes, p, k, i) && consulted(index, probes, p)
                && index.entries[p].mtime_ns is Some && probes[p] == Probe::Dir(
                index.entries[p].mtime_ns->0,
            ) && !racy(index.entries[p].mtime_ns->0 as int, index.written_ns as int),
{
    let (p, k) = choose|p: int, k: int|
        p < i && #[trigger] leads_to(index, probes, p, k, i) && consulted(index, probes, p);
    assert(leads_to(index, probes, p, k, i));
}

/// A directory whose mtime moved, or lies inside the racy window, is handed
/// back to the walker, and none of its recorded children is looked at.
pub proof fn law_changed_directory_is_not_entered(
    index: IndexView,
    probes: Seq<Probe>,
    p: int,
    k: int,
)
    requires
        is_tree(index.entries),
        probes.len() == index.entries.len(),
        0 <= p < index.entries.len(),
        !(fate_at(index, probes, p) is KeepDir),
        0 <= k < index.entries[p].children.len(),
    ensures
        !consulted(index, probes, index.entries[p].children[k] as int),
{
    let c = index.entries[p].children[k] as int;
    assert(p < index.entries[p].children[k]);
    if consulted(index, probes, c) {
        let (p2, k2) = choose|p2: int, k2: int|
            p2 < c && #[trigger] leads_to(index, probes, p2, k2, c) && consulted(
                index,
                probes,
                p2,
            );
        assert(index.entries[p2].children[k2] == index.entries[p].children[k]);
    }
}

/// What the entry number `i` recorded.
pub open spec fn entry_record(index: IndexView, i: int) -> RecordView {
    RecordView { rel: index.entries[i].rel, mtime_ns: index.entries[i].mtime_ns }
}

/// Whether nothing moved since the index was written: every repository is
/// still there and every directory has the mtime it was read with, which is
/// old enough to be evidence.
pub open spec fn is_settled(index: IndexView, probes: Seq<Probe>) -> bool {
    forall|i: int|
        0 <= i < index.entries.len() ==> match (#[trigger] index.entries[i]).mtime_ns {
            Some(mtime) => probes[i] == Probe::Dir(mtime) && !racy(
                mtime as int,
                index.written_ns as int,
            ),
            None => probes[i] == Probe::Repo,
        }
}

/// Every entry of a settled index may be consulted.
proof fn lemma_settled_is_consulted(index: IndexView, probes: Seq<Probe>, i: int)
    requires
        is_tree(index.entries),
        probes.len() == index.entries.len(),
        is_settled(index, probes),
        0 <= i < index.entries.len(),
    ensures
        consulted(index, probes, i),
    decreases i,
{
    if i > 0 {
        assert(claimed(index.entries, i));
        let (p, k) = choose|p: int, k: int|
            0 <= p < index.entries.len() && 0 <= k < index.entries[p].children.len()
                && #[trigger] index.entries[p].children[k] == i;
        assert(p < index.entries[p].children[k]);
        lemma_settled_is_consulted(index, probes, p);
        assert(index.entries[p].mtime_ns is Some) by {
            assert(entries_plain(index.entries));
        }
        assert(leads_to(index, probes, p, k, i));
    }
}

/// What a settled index keeps of the entries that `seen` lists.
proof fn lemma_settled_keeps(index: IndexView, probes: Seq<Probe>, seen: Seq<int>)
    requires
        is_settled(index, probes),
        forall|j: int| 0 <= j < seen.len() ==> 0 <= #[trigger] seen[j] < index.entries.len(),
    ensures
        kept_records(index, probes, seen) == Seq::new(
            seen.len(),
            |j: int| entry_record(index, seen[j]),
        ),
        stale_paths(index, probes, seen) == Seq::<Seq<u8>>::empty(),
        racy_count(index, probes, seen) == 0,
    decreases seen.len(),
{
    let want = Seq::new(seen.len(), |j: int| entry_record(index, seen[j]));
    if seen.len() > 0 {
        let rest = seen.drop_last();
        lemma_settled_keeps(index, probes, rest);
        let i = seen.last();
        assert(i == seen[seen.len() - 1]);
        assert(index.entries[i] == index.entries[i]);
        assert(Seq::new(rest.len(), |j: int| entry_record(index, rest[j])) =~= want.drop_last());
        assert(kept_records(index, probes, seen) == want.drop_last().push(entry_record(index, i)));
    }
    assert(kept_records(index, probes, seen) =~= want);
}

/// While nothing moves, the index answers alone: the pass keeps every entry
/// as it was recorded, each once, and hands no directory back to the walker.
pub proof fn law_settled_index_answers_alone(
    index: IndexView,
    probes: Seq<Probe>,
    seen: Seq<int>,
)
    requires
        is_tree(index.entries),
        probes.len() == index.entries.len(),
        is_settled(index, probes),
        is_visit(index, probes, seen),
    ensures
        stale_paths(index, probes, seen) == Seq::<Seq<u8>>::empty(),
        racy_count(index, probes, seen) == 0,
        kept_records(index, probes, seen) == Seq::new(
            seen.len(),
            |j: int| entry_record(index, seen[j]),
        ),
        forall|i: int| #[trigger] seen.contains(i) <==> 0 <= i < index.entries.len(),
{
    assert forall|j: int| 0 <= j < seen.len() implies 0 <= #[trigger] seen[j]
        < index.entries.len() by {
        assert(seen.contains(seen[j]));
    }
    lemma_settled_keeps(index, probes, seen);
    assert forall|i: int| #[trigger] seen.contains(i) <==> 0 <= i < index.entries.len() by {
        if 0 <= i < index.entries.len() {
            lemma_settled_is_consulted(index, probes, i);
        }
    }
}

/// `/.git`.
pub const GIT_BELOW: [u8; 5] = [0x2f, 0x2e, 0x67, 0x69, 0x74];

/// What has to be asked to probe an entry.
#[derive(Debug)]
pub enum ProbeRequest {
    /// Nothing: the answer is known.
    Known(Probe),
    /// Whether this path, below the root, can be `stat`ed, following links.
    Stat(Vec<u8>),
    /// What this path, below the root, is, without following links.
    Lstat(Vec<u8>),
}

/// The path whose `stat` decides whether the repository at `rel` is there.
pub open spec fn git_path(rel: Seq<u8>) -> Seq<u8> {
    if rel.len() == 0 {
        GIT_NAME@
    } else {
        rel + GIT_BELOW@
    }
}

/// The path that names the directory `rel` against the root's descriptor.
pub open spec fn dir_path(rel: Seq<u8>) -> Seq<u8> {
    if rel.len() == 0 {
        seq![DOT]
    } else {
        rel
    }
}

/// What has to be asked about an entry.
///
/// A repository whose name ends in `.git` is one by its name alone. Any other
/// repository is there while its `.git` can be `stat`ed. A path that cannot
/// become a C string is stale unasked.
pub fn probe(entry: &Entry, root_name: &[u8]) -> (r: ProbeRequest)
    ensures
        match r {
            ProbeRequest::Known(p) => if entry@.mtime_ns is None && is_git_name(
                if entry@.rel.len() == 0 {
                    root_name@
                } else {
                    base_name(entry@.rel)
                },
            ) {
                p == Probe::Repo
            } else {
                p == Probe::Stale && entry@.rel.contains(0)
            },
            ProbeRequest::Stat(path) => {
                &&& entry@.mtime_ns is None
                &&& !is_git_name(
                    if entry@.rel.len() == 0 {
                        root_name@
                    } else {
                        base_name(entry@.rel)
                    },
                )
                &&& path@ == git_path(entry@.rel)
                &&& !entry@.rel.contains(0)
            },
            ProbeRequest::Lstat(path) => {
                &&& entry@.mtime_ns is Some
                &&& path@ == dir_path(entry@.rel)
                &&& !entry@.rel.contains(0)
            },
        },
{
    let rel = entry.rel.as_slice();
    if entry.is_repo() {
        let named = if rel.len() == 0 {
            ends_with(root_name, GIT_NAME.as_slice())
        } else {
            ends_with(basename(rel), GIT_NAME.as_slice())
        };
        if named {
            return ProbeRequest::Known(Probe::Repo);
        }
        if find_byte(0, rel).is_some() {
            return ProbeRequest::Known(Probe::Stale);
        }
        let mut path: Vec<u8> = Vec::new();
        if rel.len() == 0 {
            push_all(&mut path, GIT_NAME.as_slice());
            assert(path@ =~= GIT_NAME@);
        } else {
            push_all(&mut path, rel);
            push_all(&mut path, GIT_BELOW.as_slice());
            assert(path@ =~= rel@ + GIT_BELOW@);
        }
        return ProbeRequest::Stat(path);
    }
    if find_byte(0, rel).is_some() {
        return ProbeRequest::Known(Probe::Stale);
    }
    let mut path: Vec<u8> = Vec::new();
    if rel.len() == 0 {
        path.push(DOT);
        assert(path@ =~= seq![DOT]);
    } else {
        push_all(&mut path, rel);
        assert(path@ =~= rel@);
    }
    ProbeRequest::Lstat(path)
}

/// What the `stat` of a repository's `.git` says.
pub fn probe_repo(found: bool) -> (r: Probe)
    ensures
        r == if found { Probe::Repo } else { Probe::Stale },
{
    if found {
        Probe::Repo
    } else {
        Probe::Stale
    }
}

/// What a directory's `stat` says: its mode and mtime, where there is one. A
/// directory replaced by a link to a directory is stale.
pub fn probe_dir(stat: Option<(u32, i64)>) -> (r: Probe)
    ensures
        r == match stat {
            Some((mode, mtime)) => if type_of_mode(mode) is Directory {
                Probe::Dir(mtime)
            } else {
                Probe::Stale
            },
            None => Probe::Stale,
        },
{
    match stat {
        Some((mode, mtime)) => match Kind::from_raw_mode(mode) {
            Kind::Dir => Probe::Dir(mtime),
            _ => Probe::Stale,
        },
        None => Probe::Stale,
    }
}

} // verus!
