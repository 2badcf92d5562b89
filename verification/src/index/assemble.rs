//! The index that a walk's records describe.

use vstd::prelude::*;
use vstd::slice::{slice_subrange, slice_to_vec};

use super::format::{
    claimed, claimed_once, entries_plain, entry_views, forward, is_tree, safe_rel, Entry, EntryView,
    Index,
};
use crate::bytes::{after_last, before_last, bytes_eq, lemma_around_last, rfind_byte, views, SLASH};
use crate::sorting::{
    is_permutation, lemma_lex_antisymmetric, lemma_lex_reflexive, lemma_lex_transitive,
    lemma_permutation_surjective, lemma_prefix_before, lex_le, lex_lt, picks_sorted, search_sorted,
    sorted_order, strictly_sorted,
};
use crate::walk::{record_views, Record, RecordView};

verus! {

/// The path of the directory that holds `rel`: all before its last slash,
/// nothing where it has none.
pub open spec fn parent_path(rel: Seq<u8>) -> Seq<u8> {
    before_last(rel, SLASH)
}

/// The last component of a path: all behind its last slash.
pub open spec fn base_name(rel: Seq<u8>) -> Seq<u8> {
    after_last(rel, SLASH)
}

/// A path that is not empty comes after the path of the directory holding it.
proof fn lemma_parent_before(rel: Seq<u8>)
    requires
        rel.len() > 0,
    ensures
        lex_lt(parent_path(rel), rel),
    decreases rel.len(),
{
    lemma_parent_prefix(rel);
    lemma_prefix_before(parent_path(rel), rel);
}

proof fn lemma_parent_prefix(rel: Seq<u8>)
    requires
        rel.len() > 0,
    ensures
        parent_path(rel).len() < rel.len(),
        rel.take(parent_path(rel).len() as int) == parent_path(rel),
    decreases rel.len(),
{
    if rel.last() == SLASH {
        assert(rel.take(rel.len() - 1) =~= rel.drop_last());
    } else if rel.len() == 1 {
        assert(rel.drop_last() =~= Seq::empty());
        assert(parent_path(rel.drop_last()) =~= Seq::empty());
        assert(rel.take(0) =~= Seq::empty());
    } else {
        lemma_parent_prefix(rel.drop_last());
        assert(rel.take(parent_path(rel).len() as int) =~= rel.drop_last().take(
            parent_path(rel).len() as int,
        ));
    }
}

/// The root-relative path of `rel`'s parent directory.
pub fn parent_of(rel: &[u8]) -> (r: &[u8])
    ensures
        r@ == parent_path(rel@),
{
    match rfind_byte(SLASH, rel) {
        Some(i) => {
            proof {
                lemma_around_last(rel@, SLASH, i as int);
            }
            slice_subrange(rel, 0, i)
        },
        None => {
            proof {
                assert forall|j: int| -1 < j < rel@.len() implies rel@[j] != SLASH by {
                    assert(rel@.contains(rel@[j]));
                }
                lemma_around_last(rel@, SLASH, -1);
                assert(rel@.subrange(0, 0) =~= Seq::empty());
            }
            slice_subrange(rel, 0, 0)
        },
    }
}

/// The last component of a root-relative path.
pub fn basename(rel: &[u8]) -> (r: &[u8])
    ensures
        r@ == base_name(rel@),
{
    let end: usize = rel.len();
    match rfind_byte(SLASH, rel) {
        Some(i) => {
            proof {
                lemma_around_last(rel@, SLASH, i as int);
                assert(rel@.skip(i + 1) =~= rel@.subrange(i + 1, rel@.len() as int));
            }
            slice_subrange(rel, i + 1, end)
        },
        None => {
            proof {
                assert forall|j: int| -1 < j < rel@.len() implies rel@[j] != SLASH by {
                    assert(rel@.contains(rel@[j]));
                }
                lemma_around_last(rel@, SLASH, -1);
                assert(rel@.skip(0) =~= rel@);
            }
            rel
        },
    }
}

/// The paths of entries.
pub open spec fn rels(entries: Seq<EntryView>) -> Seq<Seq<u8>> {
    Seq::new(entries.len(), |i: int| entries[i].rel)
}

/// Of the entries below number `n`, those that lie directly in the directory
/// of entry `a`, in order.
pub open spec fn children_of(paths: Seq<Seq<u8>>, a: int, n: int) -> Seq<u32>
    decreases n,
{
    if n <= 1 {
        Seq::empty()
    } else {
        let rest = children_of(paths, a, n - 1);
        if parent_path(paths[n - 1]) == paths[a] {
            rest.push((n - 1) as u32)
        } else {
            rest
        }
    }
}

/// The paths of records.
pub open spec fn record_rels(records: Seq<RecordView>) -> Seq<Seq<u8>> {
    Seq::new(records.len(), |k: int| records[k].rel)
}

/// Whether some record is about the path `rel`.
pub open spec fn recorded(records: Seq<RecordView>, rel: Seq<u8>) -> bool {
    record_rels(records).contains(rel)
}

/// Whether records can form a tree: the root is among them, and so is the
/// directory of every other one.
pub open spec fn rooted(records: Seq<RecordView>) -> bool {
    &&& recorded(records, Seq::empty())
    &&& forall|k: int|
        0 <= k < records.len() && (#[trigger] records[k]).rel.len() > 0 ==> recorded(
            records,
            parent_path(records[k].rel),
        )
}

/// Whether `entries` are the records, one for each path, sorted by path and
/// linked to their directories.
pub open spec fn describes_records(entries: Seq<EntryView>, records: Seq<RecordView>) -> bool {
    &&& strictly_sorted(rels(entries))
    &&& forall|k: int|
        0 <= k < records.len() ==> rels(entries).contains((#[trigger] records[k]).rel)
    &&& forall|i: int|
        0 <= i < entries.len() ==> records.contains(
            (RecordView {
                rel: (#[trigger] entries[i]).rel,
                mtime_ns: entries[i].mtime_ns,
            }),
        )
    &&& forall|i: int|
        0 <= i < entries.len() ==> (#[trigger] entries[i]).children == children_of(
            rels(entries),
            i,
            entries.len() as int,
        )
}

/// The records sorted by path, one for each path.
fn sorted_entries(records: &Vec<Record>) -> (r: (Vec<Vec<u8>>, Vec<Option<i64>>))
    ensures
        r.0@.len() == r.1@.len(),
        r.0@.len() <= records@.len(),
        strictly_sorted(views(r.0@)),
        forall|k: int|
            0 <= k < records@.len() ==> views(r.0@).contains((#[trigger] records@[k])@.rel),
        forall|i: int|
            0 <= i < r.0@.len() ==> record_views(records@).contains(
                (RecordView { rel: (#[trigger] r.0@[i])@, mtime_ns: r.1@[i] }),
            ),
{
    let mut keys: Vec<Vec<u8>> = Vec::new();
    let mut i: usize = 0;
    while i < records.len()
        invariant
            i <= records@.len(),
            keys@.len() == i,
            forall|j: int| 0 <= j < i ==> (#[trigger] keys@[j])@ == records@[j]@.rel,
        decreases records@.len() - i,
    {
        keys.push(slice_to_vec(records[i].rel()));
        i += 1;
    }
    let order = sorted_order(&keys);
    let mut paths: Vec<Vec<u8>> = Vec::new();
    let mut mtimes: Vec<Option<i64>> = Vec::new();
    let mut n: usize = 0;
    while n < order.len()
        invariant
            n <= order@.len(),
            order@.len() == records@.len(),
            keys@.len() == records@.len(),
            is_permutation(order@, keys@.len()),
            picks_sorted(keys@, order@),
            forall|j: int| 0 <= j < keys@.len() ==> (#[trigger] keys@[j])@ == records@[j]@.rel,
            paths@.len() == mtimes@.len(),
            paths@.len() <= n,
            strictly_sorted(views(paths@)),
            n > 0 ==> paths@.len() > 0 && paths@.last()@ == keys@[order@[n - 1] as int]@,
            forall|k: int|
                0 <= k < n ==> views(paths@).contains(keys@[#[trigger] order@[k] as int]@),
            forall|i: int|
                0 <= i < paths@.len() ==> record_views(records@).contains(
                    (RecordView { rel: (#[trigger] paths@[i])@, mtime_ns: mtimes@[i] }),
                ),
        decreases order@.len() - n,
    {
        let at: usize = order[n];
        let ghost before = paths@;
        let fresh = paths.len() == 0 || !bytes_eq(
            paths[paths.len() - 1].as_slice(),
            keys[at].as_slice(),
        );
        if fresh {
            proof {
                if n > 0 {
                    assert(lex_le(keys@[order@[n - 1] as int]@, keys@[order@[n as int] as int]@));
                }
            }
            paths.push(slice_to_vec(keys[at].as_slice()));
            mtimes.push(records[at].mtime_ns());
            proof {
                let pv = views(paths@);
                let key = keys@[at as int]@;
                assert forall|i: int, j: int| 0 <= i < j < pv.len() implies lex_lt(
                    #[trigger] pv[i],
                    #[trigger] pv[j],
                ) by {
                    assert(pv[i] == views(before)[i]);
                    if j < before.len() {
                        assert(pv[j] == views(before)[j]);
                    } else {
                        let last = before.len() - 1;
                        assert(views(before)[last] == before.last()@);
                        lemma_lex_reflexive(pv[i]);
                        assert(lex_le(pv[i], before.last()@));
                        lemma_lex_transitive(pv[i], before.last()@, key);
                        if pv[i] == key {
                            lemma_lex_antisymmetric(before.last()@, key);
                        }
                    }
                }
                assert(record_views(records@)[at as int] == records@[at as int]@);
            }
        }
        proof {
            let pv = views(paths@);
            assert forall|k: int| 0 <= k < n + 1 implies pv.contains(
                keys@[#[trigger] order@[k] as int]@,
            ) by {
                if k < n {
                    let i = choose|i: int|
                        0 <= i < views(before).len() && views(before)[i] == keys@[order@[k] as int]@;
                    assert(pv[i] == views(before)[i]);
                } else {
                    assert(pv[paths@.len() - 1] == keys@[order@[k] as int]@);
                }
            }
            assert forall|i: int| 0 <= i < paths@.len() implies record_views(records@).contains(
                (RecordView { rel: (#[trigger] paths@[i])@, mtime_ns: mtimes@[i] }),
            ) by {
                if i < before.len() {
                    assert(paths@[i] == before[i]);
                } else {
                    assert(record_views(records@)[at as int] == (RecordView {
                        rel: paths@[i]@,
                        mtime_ns: mtimes@[i],
                    }));
                }
            }
        }
        n += 1;
    }
    proof {
        assert forall|k: int| 0 <= k < records@.len() implies views(paths@).contains(
            (#[trigger] records@[k])@.rel,
        ) by {
            lemma_permutation_surjective(order@, keys@.len(), k);
            let p = choose|p: int| 0 <= p < keys@.len() && #[trigger] order@[p] == k;
            assert(keys@[order@[p] as int]@ == records@[k]@.rel);
        }
    }
    (paths, mtimes)
}

/// Whether every child list holds the children below number `upto`.
spec fn linked(lists: Seq<Vec<u32>>, paths: Seq<Seq<u8>>, upto: int) -> bool {
    forall|a: int| 0 <= a < lists.len() ==> (#[trigger] lists[a])@ == children_of(paths, a, upto)
}

/// `n` empty child lists.
fn empty_lists(n: usize, Ghost(paths): Ghost<Seq<Seq<u8>>>) -> (r: Vec<Vec<u32>>)
    ensures
        r@.len() == n,
        linked(r@, paths, 1),
{
    let mut lists: Vec<Vec<u32>> = Vec::new();
    while lists.len() < n
        invariant
            lists@.len() <= n,
            linked(lists@, paths, 1),
        decreases n - lists@.len(),
    {
        let ghost before = lists@;
        let list: Vec<u32> = Vec::new();
        assert(list@ =~= Seq::empty());
        lists.push(list);
        assert forall|a: int| 0 <= a < lists@.len() implies (#[trigger] lists@[a])@ == children_of(
            paths,
            a,
            1,
        ) by {
            if a < before.len() {
                assert(lists@[a] == before[a]);
            }
        }
    }
    lists
}

/// Links every path but the first to the directory it lies in; `None` when
/// one of those directories is not among the paths.
fn link(paths: &Vec<Vec<u8>>) -> (r: Option<Vec<Vec<u32>>>)
    requires
        strictly_sorted(views(paths@)),
        0 < paths@.len() <= u32::MAX,
    ensures
        match r {
            Some(lists) => {
                &&& lists@.len() == paths@.len()
                &&& linked(lists@, views(paths@), paths@.len() as int)
                &&& forall|j: int|
                    0 < j < paths@.len() ==> views(paths@).contains(
                        parent_path(#[trigger] views(paths@)[j]),
                    )
            },
            None => exists|j: int|
                0 < j < paths@.len() && !views(paths@).contains(
                    parent_path(#[trigger] views(paths@)[j]),
                ),
        },
{
    let ghost pv = views(paths@);
    let mut lists = empty_lists(paths.len(), Ghost(pv));
    let mut i: usize = 1;
    while i < paths.len()
        invariant
            1 <= i <= paths@.len() <= u32::MAX,
            lists@.len() == paths@.len(),
            pv == views(paths@),
            strictly_sorted(pv),
            linked(lists@, pv, i as int),
            forall|j: int| 0 < j < i ==> pv.contains(parent_path(#[trigger] pv[j])),
        decreases paths@.len() - i,
    {
        let parent = parent_of(paths[i].as_slice());
        assert(parent@ == parent_path(pv[i as int]));
        let at: usize = match search_sorted(paths, parent) {
            Some(at) => at,
            None => {
                assert(!pv.contains(parent_path(pv[i as int]))) by {
                    if pv.contains(parent@) {
                        let j = choose|j: int| 0 <= j < pv.len() && pv[j] == parent@;
                        assert(paths@[j]@ == parent@);
                    }
                }
                return None;
            },
        };
        assert(pv[at as int] == parent@);
        let ghost before = lists@;
        lists[at].push(i as u32);
        proof {
            assert(pv.contains(parent_path(pv[i as int])));
            assert forall|a: int| 0 <= a < lists@.len() implies (#[trigger] lists@[a])@
                == children_of(pv, a, i + 1) by {
                assert(before[a]@ == children_of(pv, a, i as int));
                if a != at {
                    assert(lists@[a] == before[a]);
                    if pv[a] == pv[at as int] {
                        if a < at {
                            assert(lex_lt(pv[a], pv[at as int]));
                        } else {
                            assert(lex_lt(pv[at as int], pv[a]));
                        }
                    }
                }
            }
        }
        i += 1;
    }
    Some(lists)
}

/// Paths, mtimes and child lists put together.
fn zip_entries(
    paths: &Vec<Vec<u8>>,
    mtimes: &Vec<Option<i64>>,
    lists: &Vec<Vec<u32>>,
) -> (entries: Vec<Entry>)
    requires
        paths@.len() == mtimes@.len(),
        paths@.len() == lists@.len(),
    ensures
        entries@.len() == paths@.len(),
        forall|j: int|
            0 <= j < paths@.len() ==> (#[trigger] entries@[j])@ == (EntryView {
                rel: paths@[j]@,
                mtime_ns: mtimes@[j],
                children: lists@[j]@,
            }),
{
    let mut entries: Vec<Entry> = Vec::new();
    let mut n: usize = 0;
    while n < paths.len()
        invariant
            n <= paths@.len(),
            entries@.len() == n,
            lists@.len() == paths@.len(),
            mtimes@.len() == paths@.len(),
            forall|j: int|
                0 <= j < n ==> (#[trigger] entries@[j])@ == (EntryView {
                    rel: paths@[j]@,
                    mtime_ns: mtimes@[j],
                    children: lists@[j]@,
                }),
        decreases paths@.len() - n,
    {
        entries.push(
            Entry {
                rel: slice_to_vec(paths[n].as_slice()),
                mtime_ns: mtimes[n],
                children: slice_to_vec(lists[n].as_slice()),
            },
        );
        n += 1;
    }
    entries
}

/// The paths of the sorted entries are the recorded ones.
proof fn lemma_listed_is_recorded(
    records: Seq<Record>,
    paths: Seq<Vec<u8>>,
    mtimes: Seq<Option<i64>>,
    rel: Seq<u8>,
)
    requires
        forall|k: int|
            0 <= k < records.len() ==> views(paths).contains((#[trigger] records[k])@.rel),
        forall|i: int|
            0 <= i < paths.len() ==> record_views(records).contains(
                (RecordView { rel: (#[trigger] paths[i])@, mtime_ns: mtimes[i] }),
            ),
    ensures
        recorded(record_views(records), rel) <==> views(paths).contains(rel),
{
    let rv = record_views(records);
    let pv = views(paths);
    if recorded(rv, rel) {
        let k = choose|k: int| 0 <= k < rv.len() && record_rels(rv)[k] == rel;
        assert(records[k]@.rel == rel);
    }
    if pv.contains(rel) {
        let i = choose|i: int| 0 <= i < pv.len() && pv[i] == rel;
        assert(paths[i]@ == rel);
        let want = RecordView { rel: paths[i]@, mtime_ns: mtimes[i] };
        let k = choose|k: int| 0 <= k < rv.len() && rv[k] == want;
        assert(record_rels(rv)[k] == rel);
    }
}

/// The entry tree that one walk's records describe, or `None` when they
/// cannot form a tree rooted at the root entry or are more than an index can
/// number. `dev`, `ino` and `written_ns` are the root's identity and the time
/// of writing.
pub fn build(
    root: &[u8],
    exclude: &Vec<Vec<u8>>,
    records: &Vec<Record>,
    dev: u64,
    ino: u64,
    written_ns: i64,
) -> (r: Option<Index>)
    ensures
        r is Some ==> rooted(record_views(records@)),
        rooted(record_views(records@)) && records@.len() <= u32::MAX ==> r is Some,
        r matches Some(index) ==> {
            &&& index@.root == root@
            &&& index@.dev == dev
            &&& index@.ino == ino
            &&& index@.written_ns == written_ns
            &&& index@.exclude == views(exclude@)
            &&& index@.entries.len() <= u32::MAX
            &&& describes_records(index@.entries, record_views(records@))
        },
{
    let (paths, mtimes) = sorted_entries(records);
    let ghost rv = record_views(records@);
    let ghost pv = views(paths@);
    proof {
        assert forall|rel: Seq<u8>| #[trigger] recorded(rv, rel) == pv.contains(rel) by {
            lemma_listed_is_recorded(records@, paths@, mtimes@, rel);
        }
    }
    if paths.len() == 0 || paths[0].len() != 0 {
        proof {
            if pv.contains(Seq::empty()) {
                let i = choose|i: int| 0 <= i < pv.len() && pv[i] == Seq::<u8>::empty();
                assert(pv[0] == paths@[0]@);
                if i > 0 {
                    assert(lex_lt(pv[0], pv[i]));
                }
            }
            assert(!recorded(rv, Seq::empty()));
        }
        return None;
    }
    assert(pv[0] =~= Seq::empty());
    if paths.len() as u64 > u32::MAX as u64 {
        return None;
    }
    proof {
        assert(recorded(rv, Seq::empty()));
        assert forall|j: int| 0 < j < pv.len() implies (#[trigger] pv[j]).len() > 0 by {
            assert(lex_lt(pv[0], pv[j]));
            if pv[j].len() == 0 {
                assert(pv[j] =~= pv[0]);
            }
        }
    }
    let lists = match link(&paths) {
        Some(lists) => lists,
        None => {
            proof {
                let j = choose|j: int|
                    0 < j < paths@.len() && !pv.contains(parent_path(#[trigger] pv[j]));
                assert(pv.contains(pv[j]));
                assert(recorded(rv, pv[j]));
                let k = choose|k: int| 0 <= k < rv.len() && record_rels(rv)[k] == pv[j];
                assert(rv[k].rel == pv[j]);
                assert(!recorded(rv, parent_path(rv[k].rel)));
            }
            return None;
        },
    };
    let entries = zip_entries(&paths, &mtimes, &lists);
    let index = Index {
        root: slice_to_vec(root),
        dev,
        ino,
        written_ns,
        exclude: crate::bytes::copy_list(exclude),
        entries,
    };
    proof {
        assert(rooted(rv)) by {
            assert forall|k: int| 0 <= k < rv.len() && (#[trigger] rv[k]).rel.len() > 0 implies
                recorded(rv, parent_path(rv[k].rel)) by {
                assert(record_rels(rv)[k] == rv[k].rel);
                assert(recorded(rv, rv[k].rel));
                let j = choose|j: int| 0 <= j < pv.len() && pv[j] == rv[k].rel;
                assert(j > 0);
                assert(pv.contains(parent_path(pv[j])));
            }
        }
        lemma_describes(records@, paths@, mtimes@, lists@, index.entries@);
    }
    Some(index)
}

proof fn lemma_describes(
    records: Seq<Record>,
    paths: Seq<Vec<u8>>,
    mtimes: Seq<Option<i64>>,
    lists: Seq<Vec<u32>>,
    entries: Seq<Entry>,
)
    requires
        paths.len() == mtimes.len(),
        paths.len() == lists.len(),
        paths.len() == entries.len(),
        strictly_sorted(views(paths)),
        forall|k: int|
            0 <= k < records.len() ==> views(paths).contains((#[trigger] records[k])@.rel),
        forall|i: int|
            0 <= i < paths.len() ==> record_views(records).contains(
                (RecordView { rel: (#[trigger] paths[i])@, mtime_ns: mtimes[i] }),
            ),
        linked(lists, views(paths), paths.len() as int),
        forall|j: int|
            0 <= j < paths.len() ==> (#[trigger] entries[j])@ == (EntryView {
                rel: paths[j]@,
                mtime_ns: mtimes[j],
                children: lists[j]@,
            }),
    ensures
        describes_records(entry_views(entries), record_views(records)),
{
    let ev = entry_views(entries);
    let rv = record_views(records);
    let pv = views(paths);
    assert(rels(ev) =~= pv);
    assert forall|k: int| 0 <= k < rv.len() implies rels(ev).contains((#[trigger] rv[k]).rel) by {
        assert(records[k]@ == rv[k]);
    }
    assert forall|i: int| 0 <= i < ev.len() implies rv.contains(
        (RecordView { rel: (#[trigger] ev[i]).rel, mtime_ns: ev[i].mtime_ns }),
    ) by {
        assert(entries[i]@ == ev[i]);
        assert(paths[i]@ == ev[i].rel);
    }
    assert forall|i: int| 0 <= i < ev.len() implies (#[trigger] ev[i]).children == children_of(
        rels(ev),
        i,
        ev.len() as int,
    ) by {
        assert(entries[i]@ == ev[i]);
        assert(lists[i]@ == children_of(pv, i, paths.len() as int));
    }
}

/// What the children of an entry are.
pub proof fn lemma_children_of(paths: Seq<Seq<u8>>, a: int, n: int)
    requires
        0 <= a,
        n <= u32::MAX,
    ensures
        forall|k: int|
            0 <= k < children_of(paths, a, n).len() ==> 0 < #[trigger] children_of(paths, a, n)[k]
                < n && parent_path(paths[children_of(paths, a, n)[k] as int]) == paths[a],
        forall|k: int, l: int|
            0 <= k < l < children_of(paths, a, n).len() ==> #[trigger] children_of(paths, a, n)[k]
                < #[trigger] children_of(paths, a, n)[l],
        forall|c: int|
            0 < c < n && parent_path(#[trigger] paths[c]) == paths[a] ==> exists|k: int|
                0 <= k < children_of(paths, a, n).len() && #[trigger] children_of(paths, a, n)[k]
                    == c,
    decreases n,
{
    if n > 1 {
        lemma_children_of(paths, a, n - 1);
        let rest = children_of(paths, a, n - 1);
        let all = children_of(paths, a, n);
        assert forall|c: int| 0 < c < n && parent_path(#[trigger] paths[c]) == paths[a] implies
            exists|k: int| 0 <= k < all.len() && #[trigger] all[k] == c by {
            if c < n - 1 {
                let k = choose|k: int| 0 <= k < rest.len() && #[trigger] rest[k] == c;
                assert(all[k] == c);
            } else {
                assert(all[rest.len() as int] == c);
            }
        }
    }
}

/// Whether every path is safe and every recorded directory of another record
/// is a directory.
pub open spec fn well_recorded(records: Seq<RecordView>) -> bool {
    &&& forall|k: int| 0 <= k < records.len() ==> safe_rel((#[trigger] records[k]).rel)
    &&& forall|k: int, l: int|
        #![trigger records[k], records[l]]
        0 <= k < records.len() && 0 <= l < records.len() && records[l].rel.len() > 0
            && records[k].rel == parent_path(records[l].rel) ==> records[k].mtime_ns is Some
}

/// The record an entry was made from.
proof fn lemma_entry_record(entries: Seq<EntryView>, records: Seq<RecordView>, i: int) -> (k: int)
    requires
        describes_records(entries, records),
        0 <= i < entries.len(),
    ensures
        0 <= k < records.len(),
        records[k].rel == entries[i].rel,
        records[k].mtime_ns == entries[i].mtime_ns,
{
    let want = RecordView { rel: entries[i].rel, mtime_ns: entries[i].mtime_ns };
    assert(records.contains(want));
    choose|k: int| 0 <= k < records.len() && records[k] == want
}

/// The first entry is the root, and no other one is.
proof fn lemma_root_first(entries: Seq<EntryView>, records: Seq<RecordView>)
    requires
        rooted(records),
        describes_records(entries, records),
    ensures
        entries.len() > 0,
        entries[0].rel.len() == 0,
        forall|j: int| 0 < j < entries.len() ==> (#[trigger] entries[j]).rel.len() > 0,
{
    let paths = rels(entries);
    let empty = Seq::<u8>::empty();
    let k0 = choose|k: int| 0 <= k < records.len() && record_rels(records)[k] == empty;
    assert(records[k0].rel == empty);
    let i0 = choose|i: int| 0 <= i < paths.len() && paths[i] == empty;
    if i0 > 0 {
        assert(lex_lt(paths[0], paths[i0]));
    }
    assert forall|j: int| 0 < j < entries.len() implies (#[trigger] entries[j]).rel.len() > 0 by {
        assert(lex_lt(paths[0], paths[j]));
        if paths[j].len() == 0 {
            assert(paths[j] =~= paths[0]);
        }
    }
}

/// What is known of a child of entry `i`.
proof fn lemma_child(entries: Seq<EntryView>, records: Seq<RecordView>, i: int, k: int)
    requires
        describes_records(entries, records),
        entries.len() <= u32::MAX,
        0 <= i < entries.len(),
        0 <= k < entries[i].children.len(),
        forall|j: int| 0 < j < entries.len() ==> (#[trigger] entries[j]).rel.len() > 0,
    ensures
        i < entries[i].children[k] < entries.len(),
        parent_path(entries[entries[i].children[k] as int].rel) == entries[i].rel,
{
    let n = entries.len() as int;
    let paths = rels(entries);
    lemma_children_of(paths, i, n);
    let c = children_of(paths, i, n)[k] as int;
    assert(parent_path(paths[c]) == paths[i]);
    lemma_parent_before(entries[c].rel);
    if c < i {
        assert(lex_lt(paths[c], paths[i]));
        lemma_lex_antisymmetric(paths[c], paths[i]);
    }
}

/// Two entries with one path are one entry.
proof fn lemma_same_path(entries: Seq<EntryView>, i: int, j: int)
    requires
        strictly_sorted(rels(entries)),
        0 <= i < entries.len(),
        0 <= j < entries.len(),
        entries[i].rel == entries[j].rel,
    ensures
        i == j,
{
    let paths = rels(entries);
    if i < j {
        assert(lex_lt(paths[i], paths[j]));
    }
    if j < i {
        assert(lex_lt(paths[j], paths[i]));
    }
}

/// What a walk records makes an index that a file can hold: where every path
/// is safe and every recorded directory of another record is a directory,
/// the entries form a tree, so that decoding the encoded index gives it back.
pub proof fn law_built_index_is_a_tree(entries: Seq<EntryView>, records: Seq<RecordView>)
    requires
        rooted(records),
        describes_records(entries, records),
        entries.len() <= u32::MAX,
        well_recorded(records),
    ensures
        is_tree(entries),
{
    let n = entries.len() as int;
    let paths = rels(entries);
    lemma_root_first(entries, records);
    assert(forward(entries, n)) by {
        assert forall|i: int, k: int| 0 <= i < n && 0 <= k < entries[i].children.len() implies i
            < #[trigger] entries[i].children[k] < n by {
            lemma_child(entries, records, i, k);
        }
    }
    assert(claimed_once(entries)) by {
        assert forall|i: int, k: int, i2: int, k2: int|
            0 <= i < n && 0 <= k < entries[i].children.len() && 0 <= i2 < n && 0 <= k2
                < entries[i2].children.len() && #[trigger] entries[i].children[k]
                == #[trigger] entries[i2].children[k2] implies i == i2 && k == k2 by {
            lemma_child(entries, records, i, k);
            lemma_child(entries, records, i2, k2);
            lemma_same_path(entries, i, i2);
            lemma_children_of(paths, i, n);
            if k < k2 {
                assert(children_of(paths, i, n)[k] < children_of(paths, i, n)[k2]);
            }
            if k2 < k {
                assert(children_of(paths, i, n)[k2] < children_of(paths, i, n)[k]);
            }
        }
    }
    assert forall|c: int| 0 < c < n implies #[trigger] claimed(entries, c) by {
        let l = lemma_entry_record(entries, records, c);
        let up = parent_path(records[l].rel);
        assert(recorded(records, up));
        let k = choose|k: int| 0 <= k < records.len() && record_rels(records)[k] == up;
        assert(records[k].rel == up);
        let a = choose|a: int| 0 <= a < paths.len() && paths[a] == up;
        assert(parent_path(paths[c]) == paths[a]);
        lemma_children_of(paths, a, n);
        let m = choose|m: int|
            0 <= m < children_of(paths, a, n).len() && #[trigger] children_of(paths, a, n)[m] == c;
        assert(entries[a].children[m] == c);
    }
    assert(entries_plain(entries)) by {
        assert forall|i: int| 0 <= i < n implies safe_rel((#[trigger] entries[i]).rel) && (
        entries[i].mtime_ns is None ==> entries[i].children.len() == 0) by {
            let k = lemma_entry_record(entries, records, i);
            if entries[i].children.len() > 0 {
                lemma_child(entries, records, i, 0);
                let c = entries[i].children[0] as int;
                let l = lemma_entry_record(entries, records, c);
                assert(records[k].rel == parent_path(records[l].rel));
            }
        }
    }
}

} // verus!
