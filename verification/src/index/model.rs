//! What an index and a walk of what is stale list together: what a walk of
//! the whole root would.

use vstd::prelude::*;

use super::assemble::{
    base_name, children_of, describes_records, lemma_children_of, parent_path, rels,
};
use super::cache::holds_empty;
use super::format::{is_tree, IndexView};
use super::validate::{
    consulted, fate_at, is_visit, kept_records, leads_to, stale_paths, Fate, Probe,
};
use crate::bytes::{lemma_around_last, SLASH};
use crate::walk::alike::is_queued;
use crate::walk::model::{
    enters, events_at, is_walk, is_walk_from, law_walk_from_finds_every_repository,
    lemma_all_read, lemma_event_listed, lemma_event_source, lemma_reached_from_root,
    lemma_repository_from_root, lemma_sound_walk, names, reached, reached_from, repository,
    repository_from, root_alone, yields, Progress, World,
};
use crate::walk::once::{lemma_child_unique, plain_name};
use crate::walk::sys::{
    below, is_git_name, is_own_repo, leaves_gap, printed, repo_records, shortens, verdict,
    EventView, Rules,
};
use crate::walk::{excluded_by, recorded_repos, Pattern, RecordView};

verus! {

/// Whether records say that the directory `d` was read.
pub open spec fn holds_dir(records: Seq<RecordView>, d: Seq<u8>) -> bool {
    exists|mtime: i64| #[trigger]
        records.contains(RecordView { rel: d, mtime_ns: Some(mtime) })
}

/// Whether records say that `p` is a repository.
pub open spec fn holds_repo(records: Seq<RecordView>, p: Seq<u8>) -> bool {
    records.contains(RecordView { rel: p, mtime_ns: None })
}

/// Whether records are what a walk of the filesystem comes to know: the
/// directories that it gets to and that are no repositories, and the
/// repositories.
pub open spec fn remembers(records: Seq<RecordView>, w: World, exclude: Seq<Pattern>) -> bool {
    &&& forall|d: Seq<u8>| #[trigger]
        holds_dir(records, d) <==> reached(w, exclude, d) && !w.own_git(d)
    &&& forall|p: Seq<u8>| #[trigger] holds_repo(records, p) <==> repository(w, exclude, p)
}

/// Whether the entry number `i` of `d` is a directory that the walk means to
/// read and cannot.
pub open spec fn unopened(w: World, exclude: Seq<Pattern>, d: Seq<u8>, i: int) -> bool {
    &&& 0 <= i < (w.ents)(d).len()
    &&& !w.own_git(d)
    &&& w.kind_at(d, i) is Dir
    &&& !excluded_by(exclude, w.child(d, i))
    &&& !is_git_name((w.ents)(d)[i].name)
    &&& !w.opens(d, i)
    &&& !(w.facts)(d).entries[i].git
}

/// Whether a walk leaves out no subtree: what it cannot open is not there.
pub open spec fn is_whole(w: World, exclude: Seq<Pattern>) -> bool {
    forall|d: Seq<u8>, i: int|
        reached(w, exclude, d) && #[trigger] unopened(w, exclude, d, i) ==> !shortens(
            (w.facts)(d).entries[i].open->Failed_0,
        )
}

/// Whether a directory is as it was: its entries are the same, of the same
/// kinds; its links lead to what they led to; and its directories open as
/// they did. A directory in it may have become a repository, or be none any
/// more.
pub open spec fn is_unchanged(v: World, w: World, d: Seq<u8>) -> bool {
    &&& (v.ents)(d) == (w.ents)(d)
    &&& (v.facts)(d).git == (w.facts)(d).git
    &&& forall|i: int|
        0 <= i < (v.ents)(d).len() ==> {
            let a = #[trigger] (v.facts)(d).entries[i];
            let b = (w.facts)(d).entries[i];
            &&& v.kind_at(d, i) == w.kind_at(d, i)
            &&& v.kind_at(d, i) is Symlink ==> a.target == b.target && a.git == b.git
            &&& v.kind_at(d, i) is Dir ==> a.open == b.open || (is_queued(a.open) && is_queued(
                b.open,
            ))
        }
}

/// Whether probes are what the filesystem answers about the entries of an
/// index: a repository is there while its name ends in `.git` or its `.git`
/// can be `stat`ed.
pub open spec fn is_probed(index: IndexView, probes: Seq<Probe>, w: World) -> bool {
    &&& probes.len() == index.entries.len()
    &&& forall|i: int|
        0 <= i < probes.len() && index.entries[i].mtime_ns is Some ==> !(#[trigger] probes[i]
            is Repo)
    &&& forall|i: int|
        0 <= i < probes.len() && index.entries[i].mtime_ns is None && index.entries[i].rel.len()
            == 0 ==> (#[trigger] probes[i] is Repo <==> w.own_git(Seq::empty()))
    &&& forall|i: int, d: Seq<u8>, j: int|
        #![trigger probes[i], w.child(d, j)]
        0 <= i < probes.len() && index.entries[i].mtime_ns is None && 0 <= j < (w.ents)(d).len()
            && index.entries[i].rel == w.child(d, j) ==> (probes[i] is Repo <==> is_git_name(
            base_name(index.entries[i].rel),
        ) || (w.facts)(d).entries[j].git)
}

/// Whether the path `s` is a directory that can be opened.
pub open spec fn can_open(w: World, s: Seq<u8>) -> bool {
    exists|d: Seq<u8>, j: int|
        0 <= j < (w.ents)(d).len() && #[trigger] w.child(d, j) == s && w.kind_at(d, j) is Dir
            && w.opens(d, j)
}

/// Where the walk of stale paths starts: at those that can be opened.
pub open spec fn reopened(w: World, stale: Seq<Seq<u8>>) -> Set<Seq<u8>> {
    Set::new(|s: Seq<u8>| stale.contains(s) && can_open(w, s))
}

/// Whether an index, written from `records` of the filesystem `v`, can be used
/// of the filesystem `w`: equal mtimes, old enough to be evidence, mean equal
/// directories.
pub open spec fn is_usable(
    index: IndexView,
    records: Seq<RecordView>,
    probes: Seq<Probe>,
    v: World,
    w: World,
    exclude: Seq<Pattern>,
) -> bool {
    &&& v.coherent() && v.well_named() && is_whole(v, exclude)
    &&& w.coherent() && w.well_named()
    &&& remembers(records, v, exclude)
    &&& describes_records(index.entries, records)
    &&& is_tree(index.entries)
    &&& index.entries.len() <= u32::MAX
    &&& is_probed(index, probes, w)
    &&& forall|i: int|
        0 <= i < index.entries.len() && #[trigger] fate_at(index, probes, i) is KeepDir
            ==> is_unchanged(v, w, index.entries[i].rel)
}

/// Whether the entry number `i` is handed back to the walker.
spec fn is_stale(index: IndexView, probes: Seq<Probe>, i: int) -> bool {
    &&& 0 <= i < index.entries.len()
    &&& consulted(index, probes, i)
    &&& fate_at(index, probes, i) is Racy || fate_at(index, probes, i) is Changed
}

/// Whether the entry number `i` is a directory that is kept.
spec fn is_kept_dir(index: IndexView, probes: Seq<Probe>, i: int) -> bool {
    &&& 0 <= i < index.entries.len()
    &&& consulted(index, probes, i)
    &&& fate_at(index, probes, i) is KeepDir
}

/// The directory and the name of an entry's path.
proof fn lemma_parts(d: Seq<u8>, name: Seq<u8>)
    requires
        plain_name(name),
    ensures
        parent_path(below(d, name)) == d,
        base_name(below(d, name)) == name,
{
    let q = below(d, name);
    if d.len() == 0 {
        lemma_around_last(q, SLASH, -1);
        assert(q.skip(0) =~= name);
        assert(d =~= Seq::empty());
    } else {
        let n = d.len() as int;
        assert forall|j: int| n < j < q.len() implies q[j] != SLASH by {
            assert(q[j] == name[j - n - 1]);
        }
        lemma_around_last(q, SLASH, n);
        assert(q.take(n) =~= d);
        assert(q.skip(n + 1) =~= name);
    }
}

/// No path is both a directory to read and a repository.
proof fn lemma_either(w: World, exclude: Seq<Pattern>, p: Seq<u8>)
    requires
        w.coherent(),
        w.well_named(),
        reached(w, exclude, p),
        !w.own_git(p),
    ensures
        !repository(w, exclude, p),
{
    if repository(w, exclude, p) {
        let (d, i) = choose|d: Seq<u8>, i: int|
            reached(w, exclude, d) && #[trigger] yields(w, exclude, d, i, p);
        assert(w.child(d, i).len() > d.len());
        let (c, k) = choose|c: Seq<u8>, k: int|
            c.len() < p.len() && #[trigger] enters(w, exclude, c, k, p) && reached(w, exclude, c);
        lemma_child_unique(w, d, i, c, k);
    }
}

/// What an entry of an index remembers.
proof fn lemma_entry(
    index: IndexView,
    records: Seq<RecordView>,
    v: World,
    exclude: Seq<Pattern>,
    i: int,
)
    requires
        remembers(records, v, exclude),
        describes_records(index.entries, records),
        0 <= i < index.entries.len(),
    ensures
        index.entries[i].mtime_ns is Some ==> reached(v, exclude, index.entries[i].rel)
            && !v.own_git(index.entries[i].rel),
        index.entries[i].mtime_ns is None ==> repository(v, exclude, index.entries[i].rel),
{
    let e = index.entries[i];
    assert(records.contains(RecordView { rel: e.rel, mtime_ns: e.mtime_ns }));
    match e.mtime_ns {
        Some(mtime) => {
            assert(records.contains(RecordView { rel: e.rel, mtime_ns: Some(mtime) }));
            assert(holds_dir(records, e.rel));
        },
        None => {
            assert(holds_repo(records, e.rel));
        },
    }
}

/// The entry of a directory that was read.
proof fn lemma_dir_entry(
    index: IndexView,
    records: Seq<RecordView>,
    v: World,
    exclude: Seq<Pattern>,
    d: Seq<u8>,
) -> (i: int)
    requires
        v.coherent(),
        v.well_named(),
        remembers(records, v, exclude),
        describes_records(index.entries, records),
        reached(v, exclude, d),
        !v.own_git(d),
    ensures
        0 <= i < index.entries.len(),
        index.entries[i].rel == d,
        index.entries[i].mtime_ns is Some,
{
    assert(holds_dir(records, d));
    let mtime = choose|mtime: i64| #[trigger]
        records.contains(RecordView { rel: d, mtime_ns: Some(mtime) });
    let r = RecordView { rel: d, mtime_ns: Some(mtime) };
    let k = choose|k: int| 0 <= k < records.len() && records[k] == r;
    assert(rels(index.entries).contains(records[k].rel));
    let i = choose|i: int| 0 <= i < rels(index.entries).len() && rels(index.entries)[i] == d;
    lemma_entry(index, records, v, exclude, i);
    lemma_either(v, exclude, d);
    i
}

/// The entry of a repository.
proof fn lemma_repo_entry(
    index: IndexView,
    records: Seq<RecordView>,
    v: World,
    exclude: Seq<Pattern>,
    p: Seq<u8>,
) -> (i: int)
    requires
        v.coherent(),
        v.well_named(),
        remembers(records, v, exclude),
        describes_records(index.entries, records),
        repository(v, exclude, p),
    ensures
        0 <= i < index.entries.len(),
        index.entries[i].rel == p,
        index.entries[i].mtime_ns is None,
{
    assert(holds_repo(records, p));
    let r = RecordView { rel: p, mtime_ns: None };
    let k = choose|k: int| 0 <= k < records.len() && records[k] == r;
    assert(rels(index.entries).contains(records[k].rel));
    let i = choose|i: int| 0 <= i < rels(index.entries).len() && rels(index.entries)[i] == p;
    lemma_entry(index, records, v, exclude, i);
    if index.entries[i].mtime_ns is Some {
        lemma_either(v, exclude, p);
    }
    i
}

/// An entry of a kept directory may be consulted.
proof fn lemma_down(
    index: IndexView,
    records: Seq<RecordView>,
    probes: Seq<Probe>,
    v: World,
    a: int,
    j: int,
    c: int,
)
    requires
        v.well_named(),
        describes_records(index.entries, records),
        is_tree(index.entries),
        index.entries.len() <= u32::MAX,
        is_kept_dir(index, probes, a),
        0 <= j < (v.ents)(index.entries[a].rel).len(),
        0 <= c < index.entries.len(),
        index.entries[c].rel == v.child(index.entries[a].rel, j),
    ensures
        consulted(index, probes, c),
{
    let d = index.entries[a].rel;
    let name = (v.ents)(d)[j].name;
    let paths = rels(index.entries);
    let n = index.entries.len() as int;
    assert(plain_name(name));
    lemma_parts(d, name);
    lemma_children_of(paths, a, n);
    assert(c > 0);
    assert(parent_path(paths[c]) == paths[a]);
    let k = choose|k: int|
        0 <= k < children_of(paths, a, n).len() && #[trigger] children_of(paths, a, n)[k] == c;
    assert(index.entries[a].children[k] == c);
    assert(leads_to(index, probes, a, k, c));
    assert(a < index.entries[a].children[k]);
}

/// The kept directory through which an entry is consulted.
proof fn lemma_up(index: IndexView, records: Seq<RecordView>, probes: Seq<Probe>, c: int) -> (a:
    int)
    requires
        describes_records(index.entries, records),
        index.entries.len() <= u32::MAX,
        0 < c < index.entries.len(),
        consulted(index, probes, c),
    ensures
        0 <= a < c,
        is_kept_dir(index, probes, a),
        parent_path(index.entries[c].rel) == index.entries[a].rel,
{
    let (a, k) = choose|a: int, k: int|
        a < c && #[trigger] leads_to(index, probes, a, k, c) && consulted(index, probes, a);
    let paths = rels(index.entries);
    let n = index.entries.len() as int;
    lemma_children_of(paths, a, n);
    assert(children_of(paths, a, n)[k] == c);
    assert(parent_path(paths[c]) == paths[a]);
    a
}

/// The walk of today gets to a directory that is kept, and it is no
/// repository.
proof fn lemma_kept_dir(
    index: IndexView,
    records: Seq<RecordView>,
    probes: Seq<Probe>,
    v: World,
    w: World,
    exclude: Seq<Pattern>,
    i: int,
)
    requires
        is_usable(index, records, probes, v, w, exclude),
        is_kept_dir(index, probes, i),
    ensures
        index.entries[i].mtime_ns is Some,
        reached(v, exclude, index.entries[i].rel),
        !v.own_git(index.entries[i].rel),
        is_unchanged(v, w, index.entries[i].rel),
        reached(w, exclude, index.entries[i].rel),
        !w.own_git(index.entries[i].rel),
    decreases i,
{
    let x = index.entries[i].rel;
    lemma_entry(index, records, v, exclude, i);
    assert(fate_at(index, probes, i) is KeepDir);
    if i > 0 {
        assert(index.entries[i].rel.len() > 0);
        let a = lemma_up(index, records, probes, i);
        lemma_kept_dir(index, records, probes, v, w, exclude, a);
        let (d, j) = choose|d: Seq<u8>, j: int|
            d.len() < x.len() && #[trigger] enters(v, exclude, d, j, x) && reached(v, exclude, d);
        lemma_same_parent(v, d, j, index.entries[a].rel);
        lemma_enters_still(v, w, exclude, d, j, x);
        assert(enters(w, exclude, d, j, x) && reached(w, exclude, d));
    }
}

/// The directory of a path is the one that it is an entry of.
proof fn lemma_same_parent(v: World, d: Seq<u8>, j: int, up: Seq<u8>)
    requires
        v.well_named(),
        0 <= j < (v.ents)(d).len(),
        parent_path(v.child(d, j)) == up,
    ensures
        d == up,
        base_name(v.child(d, j)) == (v.ents)(d)[j].name,
{
    assert(plain_name((v.ents)(d)[j].name));
    lemma_parts(d, (v.ents)(d)[j].name);
}

/// What was entered from a directory that is unchanged still is.
proof fn lemma_enters_still(
    v: World,
    w: World,
    exclude: Seq<Pattern>,
    d: Seq<u8>,
    j: int,
    x: Seq<u8>,
)
    requires
        is_unchanged(v, w, d),
        enters(v, exclude, d, j, x),
    ensures
        enters(w, exclude, d, j, x),
{
    let a = (v.facts)(d).entries[j];
    assert(v.opens(d, j) == is_queued(a.open));
    assert(w.opens(d, j) == is_queued((w.facts)(d).entries[j].open));
}

/// A repository that is kept is one of today's.
proof fn lemma_kept_repo(
    index: IndexView,
    records: Seq<RecordView>,
    probes: Seq<Probe>,
    v: World,
    w: World,
    exclude: Seq<Pattern>,
    i: int,
)
    requires
        is_usable(index, records, probes, v, w, exclude),
        0 <= i < index.entries.len(),
        consulted(index, probes, i),
        fate_at(index, probes, i) is KeepRepo,
    ensures
        repository(w, exclude, index.entries[i].rel),
{
    let p = index.entries[i].rel;
    assert(probes[i] is Repo);
    assert(index.entries[i].mtime_ns is None);
    lemma_entry(index, records, v, exclude, i);
    if i == 0 {
        assert(p =~= Seq::empty());
    } else {
        assert(p.len() > 0);
        let a = lemma_up(index, records, probes, i);
        lemma_kept_dir(index, records, probes, v, w, exclude, a);
        let (d, j) = choose|d: Seq<u8>, j: int|
            reached(v, exclude, d) && #[trigger] yields(v, exclude, d, j, p);
        lemma_same_parent(v, d, j, index.entries[a].rel);
        let before = (v.facts)(d).entries[j];
        assert(w.child(d, j) == p);
        assert(yields(w, exclude, d, j, p));
    }
}

/// A stale path that can be opened is one that the walk of today gets to.
proof fn lemma_stale_reached(
    index: IndexView,
    records: Seq<RecordView>,
    probes: Seq<Probe>,
    v: World,
    w: World,
    exclude: Seq<Pattern>,
    i: int,
)
    requires
        is_usable(index, records, probes, v, w, exclude),
        is_stale(index, probes, i),
        i > 0,
        can_open(w, index.entries[i].rel),
    ensures
        reached(w, exclude, index.entries[i].rel),
{
    let s = index.entries[i].rel;
    assert(s.len() > 0);
    lemma_entry(index, records, v, exclude, i);
    let a = lemma_up(index, records, probes, i);
    lemma_kept_dir(index, records, probes, v, w, exclude, a);
    if index.entries[i].mtime_ns is Some {
        let (d, j) = choose|d: Seq<u8>, j: int|
            d.len() < s.len() && #[trigger] enters(v, exclude, d, j, s) && reached(v, exclude, d);
        lemma_same_parent(v, d, j, index.entries[a].rel);
        lemma_enters_still(v, w, exclude, d, j, s);
        assert(enters(w, exclude, d, j, s) && reached(w, exclude, d));
    } else {
        let (d, j) = choose|d: Seq<u8>, j: int|
            reached(v, exclude, d) && #[trigger] yields(v, exclude, d, j, s);
        lemma_same_parent(v, d, j, index.entries[a].rel);
        let before = (v.facts)(d).entries[j];
        assert(w.child(d, j) == s);
        assert(!(probes[i] is Repo));
        let (d2, j2) = choose|d2: Seq<u8>, j2: int|
            0 <= j2 < (w.ents)(d2).len() && #[trigger] w.child(d2, j2) == s && w.kind_at(d2, j2)
                is Dir && w.opens(d2, j2);
        lemma_child_unique(w, d, j, d2, j2);
        assert(w.child(d, j).len() > d.len());
        assert(enters(w, exclude, d, j, s) && reached(w, exclude, d));
    }
}

/// Whether the walk of stale paths starts where it can.
spec fn starts(index: IndexView, probes: Seq<Probe>, w: World, start: Set<Seq<u8>>) -> bool {
    forall|s: Seq<u8>| #[trigger]
        start.contains(s) <==> can_open(w, s) && exists|i: int| #[trigger]
            is_stale(index, probes, i) && index.entries[i].rel == s
}

/// Every directory that the walk of today gets to is one that is kept, or one
/// that the walk of stale paths gets to.
proof fn lemma_cover(
    index: IndexView,
    records: Seq<RecordView>,
    probes: Seq<Probe>,
    v: World,
    w: World,
    exclude: Seq<Pattern>,
    start: Set<Seq<u8>>,
    x: Seq<u8>,
) -> (i: int)
    requires
        is_usable(index, records, probes, v, w, exclude),
        starts(index, probes, w, start),
        !is_stale(index, probes, 0),
        reached(w, exclude, x),
        !w.own_git(x),
    ensures
        (is_kept_dir(index, probes, i) && index.entries[i].rel == x) || reached_from(
            w,
            exclude,
            start,
            x,
        ),
    decreases x.len(),
{
    if x.len() == 0 {
        assert(x =~= Seq::empty());
        assert(index.entries[0].rel =~= x);
        assert(consulted(index, probes, 0));
        lemma_entry(index, records, v, exclude, 0);
        assert(fate_at(index, probes, 0) is KeepDir || fate_at(index, probes, 0) is KeepRepo);
        if fate_at(index, probes, 0) is KeepRepo {
            assert(probes[0] is Repo);
        }
        0
    } else {
        let (c, j) = choose|c: Seq<u8>, j: int|
            c.len() < x.len() && #[trigger] enters(w, exclude, c, j, x) && reached(w, exclude, c);
        let a = lemma_cover(index, records, probes, v, w, exclude, start, c);
        if is_kept_dir(index, probes, a) && index.entries[a].rel == c {
            lemma_kept_dir(index, records, probes, v, w, exclude, a);
            let before = (v.facts)(c).entries[j];
            assert(v.child(c, j) == x);
            assert(v.child(c, j).len() > c.len());
            assert(w.child(c, j).len() > c.len());
            assert(v.opens(c, j) == is_queued(before.open));
            assert(w.opens(c, j) == is_queued((w.facts)(c).entries[j].open));
            assert(enters(v, exclude, c, j, x));
            assert(reached(v, exclude, x));
            assert(can_open(w, x)) by {
                assert(w.child(c, j) == x);
            }
            let i = if v.own_git(x) {
                assert(yields(v, exclude, c, j, x));
                let i = lemma_repo_entry(index, records, v, exclude, x);
                lemma_same_parent(v, c, j, parent_path(x));
                assert(!(probes[i] is Repo)) by {
                    assert(index.entries[i].rel == w.child(c, j));
                }
                assert(fate_at(index, probes, i) is Changed);
                i
            } else {
                let i = lemma_dir_entry(index, records, v, exclude, x);
                assert(!(probes[i] is Repo));
                i
            };
            lemma_down(index, records, probes, v, a, j, i);
            if !is_kept_dir(index, probes, i) {
                assert(is_stale(index, probes, i));
                assert(start.contains(x));
            }
            i
        } else {
            assert(enters(w, exclude, c, j, x) && reached_from(w, exclude, start, c));
            a
        }
    }
}

/// A repository of today is one that is kept, or one that the walk of stale
/// paths finds.
proof fn lemma_cover_repo(
    index: IndexView,
    records: Seq<RecordView>,
    probes: Seq<Probe>,
    v: World,
    w: World,
    exclude: Seq<Pattern>,
    start: Set<Seq<u8>>,
    p: Seq<u8>,
) -> (i: int)
    requires
        is_usable(index, records, probes, v, w, exclude),
        starts(index, probes, w, start),
        !is_stale(index, probes, 0),
        repository(w, exclude, p),
    ensures
        (0 <= i < index.entries.len() && consulted(index, probes, i) && fate_at(index, probes, i)
            is KeepRepo && index.entries[i].rel == p) || repository_from(w, exclude, start, p),
{
    if p.len() == 0 && w.own_git(p) {
        assert(p =~= Seq::empty());
        assert(index.entries[0].rel =~= p);
        assert(consulted(index, probes, 0));
        lemma_entry(index, records, v, exclude, 0);
        if fate_at(index, probes, 0) is KeepDir {
            lemma_kept_dir(index, records, probes, v, w, exclude, 0);
        }
        0
    } else {
        let (d, j) = choose|d: Seq<u8>, j: int|
            reached(w, exclude, d) && #[trigger] yields(w, exclude, d, j, p);
        let a = lemma_cover(index, records, probes, v, w, exclude, start, d);
        if is_kept_dir(index, probes, a) && index.entries[a].rel == d {
            lemma_kept_dir(index, records, probes, v, w, exclude, a);
            let before = (v.facts)(d).entries[j];
            let name = (w.ents)(d)[j].name;
            assert(v.child(d, j) == p);
            assert(v.child(d, j).len() > d.len());
            assert(w.child(d, j).len() > d.len());
            lemma_same_parent(v, d, j, parent_path(p));
            assert(v.opens(d, j) == is_queued(before.open));
            assert(w.opens(d, j) == is_queued((w.facts)(d).entries[j].open));
            if v.kind_at(d, j) is Symlink || is_git_name(name) || before.git {
                assert(yields(v, exclude, d, j, p));
                let i = lemma_repo_entry(index, records, v, exclude, p);
                lemma_down(index, records, probes, v, a, j, i);
                assert(probes[i] is Repo) by {
                    assert(index.entries[i].rel == w.child(d, j));
                }
                i
            } else {
                assert(w.own_git(p));
                if !v.opens(d, j) {
                    assert(unopened(v, exclude, d, j));
                }
                assert(enters(v, exclude, d, j, p));
                assert(reached(v, exclude, p));
                let i = lemma_dir_entry(index, records, v, exclude, p);
                lemma_down(index, records, probes, v, a, j, i);
                if is_kept_dir(index, probes, i) {
                    lemma_kept_dir(index, records, probes, v, w, exclude, i);
                }
                assert(!(probes[i] is Repo));
                assert(is_stale(index, probes, i));
                assert(can_open(w, p)) by {
                    assert(w.child(d, j) == p);
                }
                assert(start.contains(p));
                i
            }
        } else {
            assert(reached_from(w, exclude, start, d) && yields(w, exclude, d, j, p));
            a
        }
    }
}

/// The walk of stale paths gets to nothing that the walk of today does not.
proof fn lemma_within(
    index: IndexView,
    records: Seq<RecordView>,
    probes: Seq<Probe>,
    v: World,
    w: World,
    exclude: Seq<Pattern>,
    start: Set<Seq<u8>>,
    x: Seq<u8>,
)
    requires
        is_usable(index, records, probes, v, w, exclude),
        starts(index, probes, w, start),
        !is_stale(index, probes, 0),
        reached_from(w, exclude, start, x),
    ensures
        reached(w, exclude, x),
    decreases x.len(),
{
    if start.contains(x) {
        let i = choose|i: int| #[trigger]
            is_stale(index, probes, i) && index.entries[i].rel == x;
        lemma_stale_reached(index, records, probes, v, w, exclude, i);
    } else {
        let (d, j) = choose|d: Seq<u8>, j: int|
            d.len() < x.len() && #[trigger] enters(w, exclude, d, j, x) && reached_from(
                w,
                exclude,
                start,
                d,
            );
        lemma_within(index, records, probes, v, w, exclude, start, d);
        assert(enters(w, exclude, d, j, x) && reached(w, exclude, d));
    }
}

/// The walk of stale paths finds nothing that the walk of today does not.
proof fn lemma_within_repo(
    index: IndexView,
    records: Seq<RecordView>,
    probes: Seq<Probe>,
    v: World,
    w: World,
    exclude: Seq<Pattern>,
    start: Set<Seq<u8>>,
    p: Seq<u8>,
)
    requires
        is_usable(index, records, probes, v, w, exclude),
        starts(index, probes, w, start),
        !is_stale(index, probes, 0),
        repository_from(w, exclude, start, p),
    ensures
        repository(w, exclude, p),
{
    if start.contains(p) && w.own_git(p) {
        lemma_within(index, records, probes, v, w, exclude, start, p);
        if p.len() > 0 {
            let (d, j) = choose|d: Seq<u8>, j: int|
                d.len() < p.len() && #[trigger] enters(w, exclude, d, j, p) && reached(
                    w,
                    exclude,
                    d,
                );
            assert(w.child(d, j).len() > d.len());
            assert(yields(w, exclude, d, j, p));
        }
    } else {
        let (d, j) = choose|d: Seq<u8>, j: int|
            reached_from(w, exclude, start, d) && #[trigger] yields(w, exclude, d, j, p);
        lemma_within(index, records, probes, v, w, exclude, start, d);
    }
}

/// What a walk remembers of the directories `reads`, which had the
/// modification times `mtimes`, one directory after the other.
pub open spec fn walk_records(
    w: World,
    rules: Rules,
    mtimes: spec_fn(Seq<u8>) -> i64,
    reads: Seq<Seq<u8>>,
) -> Seq<RecordView>
    decreases reads.len(),
{
    if reads.len() == 0 {
        Seq::empty()
    } else {
        let d = reads.last();
        let events = events_at(w, rules, d);
        walk_records(w, rules, mtimes, reads.drop_last()) + (if is_own_repo(events, d) {
            repo_records(events)
        } else {
            seq![RecordView { rel: d, mtime_ns: Some(mtimes(d)) }] + repo_records(events)
        })
    }
}

/// What events remember are the repositories that they name.
proof fn lemma_repo_records(events: Seq<EventView>, r: RecordView)
    ensures
        repo_records(events).contains(r) <==> r.mtime_ns is None && names(events, r.rel),
    decreases events.len(),
{
    if events.len() > 0 {
        let front = events.drop_last();
        lemma_repo_records(front, r);
        let all = repo_records(events);
        let rest = repo_records(front);
        if all.contains(r) {
            let k = choose|k: int| 0 <= k < all.len() && all[k] == r;
            if k < rest.len() {
                assert(rest[k] == r);
                let m = choose|m: int|
                    0 <= m < front.len() && #[trigger] front[m] == EventView::Repo(r.rel);
                assert(events[m] == EventView::Repo(r.rel));
            } else {
                assert(events[events.len() - 1] == EventView::Repo(r.rel));
            }
        }
        if r.mtime_ns is None && names(events, r.rel) {
            let m = choose|m: int|
                0 <= m < events.len() && #[trigger] events[m] == EventView::Repo(r.rel);
            if m < front.len() {
                assert(front[m] == EventView::Repo(r.rel));
                assert(names(front, r.rel));
                let k = choose|k: int| 0 <= k < rest.len() && rest[k] == r;
                assert(all[k] == r);
            } else {
                assert(all[all.len() - 1] == r);
            }
        }
    }
}

/// Whether the directory `d`, when it is read, is remembered by `r`.
spec fn leaves(
    w: World,
    rules: Rules,
    mtimes: spec_fn(Seq<u8>) -> i64,
    d: Seq<u8>,
    r: RecordView,
) -> bool {
    (r.mtime_ns is None && names(events_at(w, rules, d), r.rel)) || (!w.own_git(d) && r
        == RecordView { rel: d, mtime_ns: Some(mtimes(d)) })
}

/// A directory that is no repository does not name itself.
proof fn lemma_own_repo(w: World, rules: Rules, d: Seq<u8>)
    requires
        w.coherent(),
    ensures
        is_own_repo(events_at(w, rules, d), d) <==> w.own_git(d),
{
    let events = events_at(w, rules, d);
    if !w.own_git(d) && is_own_repo(events, d) {
        let i = lemma_event_source(d, (w.ents)(d), rules, (w.facts)(d), 0, 0);
        assert(seq![events[0]][0] == events[0]);
        assert(w.child(d, i).len() > d.len());
    }
}

/// What a walk remembers is what one of the directories read leaves.
proof fn lemma_walk_records(
    w: World,
    rules: Rules,
    mtimes: spec_fn(Seq<u8>) -> i64,
    reads: Seq<Seq<u8>>,
    r: RecordView,
)
    requires
        w.coherent(),
    ensures
        walk_records(w, rules, mtimes, reads).contains(r) <==> exists|d: Seq<u8>|
            reads.contains(d) && #[trigger] leaves(w, rules, mtimes, d, r),
    decreases reads.len(),
{
    if reads.len() > 0 {
        let d = reads.last();
        let front = reads.drop_last();
        let events = events_at(w, rules, d);
        lemma_walk_records(w, rules, mtimes, front, r);
        lemma_own_repo(w, rules, d);
        lemma_repo_records(events, r);
        let dir = RecordView { rel: d, mtime_ns: Some(mtimes(d)) };
        let rest = walk_records(w, rules, mtimes, front);
        let repos = repo_records(events);
        let new = if is_own_repo(events, d) {
            repos
        } else {
            seq![dir] + repos
        };
        let all = walk_records(w, rules, mtimes, reads);
        assert(all == rest + new);
        assert(reads[reads.len() - 1] == d);
        assert(reads.contains(d));
        assert(new.contains(r) <==> leaves(w, rules, mtimes, d, r)) by {
            if new.contains(r) {
                let k = choose|k: int| 0 <= k < new.len() && new[k] == r;
                if !w.own_git(d) && k > 0 {
                    assert(repos[k - 1] == r);
                }
            }
            if repos.contains(r) {
                let k = choose|k: int| 0 <= k < repos.len() && repos[k] == r;
                assert(new[k + (new.len() - repos.len())] == r);
            }
            if !w.own_git(d) {
                assert(new[0] == dir);
            }
        }
        if all.contains(r) {
            let k = choose|k: int| 0 <= k < all.len() && all[k] == r;
            if k < rest.len() {
                assert(rest[k] == r);
                let e = choose|e: Seq<u8>|
                    front.contains(e) && #[trigger] leaves(w, rules, mtimes, e, r);
                let m = choose|m: int| 0 <= m < front.len() && front[m] == e;
                assert(reads[m] == e);
            } else {
                assert(new[k - rest.len()] == r);
            }
        }
        if exists|e: Seq<u8>| reads.contains(e) && #[trigger] leaves(w, rules, mtimes, e, r) {
            let e = choose|e: Seq<u8>|
                reads.contains(e) && #[trigger] leaves(w, rules, mtimes, e, r);
            let m = choose|m: int| 0 <= m < reads.len() && reads[m] == e;
            if m < front.len() {
                assert(front[m] == e);
                assert(front.contains(e));
                let k = choose|k: int| 0 <= k < rest.len() && rest[k] == r;
                assert(all[k] == r);
            } else {
                let k = choose|k: int| 0 <= k < new.len() && new[k] == r;
                assert(all[rest.len() + k] == r);
            }
        }
    }
}

/// What was read and found is what the order of reading says.
proof fn lemma_progress(
    states: Seq<Progress>,
    order: Seq<Seq<u8>>,
    w: World,
    rules: Rules,
    start: Set<Seq<u8>>,
    k: int,
    d: Seq<u8>,
)
    requires
        is_walk_from(states, order, w, rules, start),
        0 <= k < states.len(),
    ensures
        states[k].done.contains(d) <==> order.take(k).contains(d),
        states[k].found.contains(d) <==> exists|e: Seq<u8>|
            order.take(k).contains(e) && #[trigger] names(events_at(w, rules, e), d),
    decreases k,
{
    let now = order.take(k);
    if k > 0 {
        lemma_progress(states, order, w, rules, start, k - 1, d);
        let x = order[k - 1];
        let front = order.take(k - 1);
        assert(states[k - 1].todo.contains(x));
        assert(now[k - 1] == x);
        assert forall|e: Seq<u8>| #[trigger] now.contains(e) <==> front.contains(e) || e == x by {
            if now.contains(e) {
                let m = choose|m: int| 0 <= m < now.len() && now[m] == e;
                if m < k - 1 {
                    assert(front[m] == e);
                }
            }
            if front.contains(e) {
                let m = choose|m: int| 0 <= m < front.len() && front[m] == e;
                assert(now[m] == e);
            }
        }
        if states[k].found.contains(d) {
            if names(events_at(w, rules, x), d) {
                assert(now.contains(x));
            } else {
                assert(states[k - 1].found.contains(d));
                let e = choose|e: Seq<u8>|
                    front.contains(e) && #[trigger] names(events_at(w, rules, e), d);
                assert(now.contains(e));
            }
        }
        if exists|e: Seq<u8>| now.contains(e) && #[trigger] names(events_at(w, rules, e), d) {
            let e = choose|e: Seq<u8>|
                now.contains(e) && #[trigger] names(events_at(w, rules, e), d);
            if e != x {
                assert(front.contains(e));
            }
        }
    } else {
        assert(now =~= Seq::empty());
    }
}

/// What a walk that has nothing left to read remembers: the directories that
/// it got to and that are no repositories, and the repositories.
proof fn lemma_walk_remembers(
    states: Seq<Progress>,
    order: Seq<Seq<u8>>,
    w: World,
    rules: Rules,
    start: Set<Seq<u8>>,
    mtimes: spec_fn(Seq<u8>) -> i64,
    d: Seq<u8>,
)
    requires
        w.coherent(),
        is_walk_from(states, order, w, rules, start),
        states.last().todo =~= Set::empty(),
    ensures
        holds_dir(walk_records(w, rules, mtimes, order), d) <==> reached_from(
            w,
            rules.exclude@,
            start,
            d,
        ) && !w.own_git(d),
        holds_repo(walk_records(w, rules, mtimes, order), d) <==> repository_from(
            w,
            rules.exclude@,
            start,
            d,
        ),
{
    let records = walk_records(w, rules, mtimes, order);
    let s = states.last();
    let n = states.len() - 1;
    assert(order.take(n) =~= order);
    lemma_sound_walk(states, order, w, rules, start, n);
    lemma_progress(states, order, w, rules, start, n, d);
    if holds_dir(records, d) {
        let mtime = choose|mtime: i64| #[trigger]
            records.contains(RecordView { rel: d, mtime_ns: Some(mtime) });
        lemma_walk_records(
            w,
            rules,
            mtimes,
            order,
            RecordView { rel: d, mtime_ns: Some(mtime) },
        );
        assert(s.done.contains(d));
    }
    if reached_from(w, rules.exclude@, start, d) && !w.own_git(d) {
        lemma_all_read(s, w, rules, start, d);
        let r = RecordView { rel: d, mtime_ns: Some(mtimes(d)) };
        lemma_walk_records(w, rules, mtimes, order, r);
        assert(order.contains(d) && leaves(w, rules, mtimes, d, r));
        assert(records.contains(r));
    }
    let r = RecordView { rel: d, mtime_ns: None };
    lemma_walk_records(w, rules, mtimes, order, r);
    law_walk_from_finds_every_repository(states, order, w, rules, start, d);
    if holds_repo(records, d) {
        let e = choose|e: Seq<u8>|
            order.contains(e) && #[trigger] leaves(w, rules, mtimes, e, r);
        assert(names(events_at(w, rules, e), d));
    }
    if s.found.contains(d) {
        let e = choose|e: Seq<u8>|
            order.take(n).contains(e) && #[trigger] names(events_at(w, rules, e), d);
        assert(leaves(w, rules, mtimes, e, r));
    }
}

/// Records in another order hold the same.
proof fn lemma_any_order(a: Seq<RecordView>, b: Seq<RecordView>)
    requires
        a.to_multiset() == b.to_multiset(),
    ensures
        forall|r: RecordView| #[trigger] a.contains(r) <==> b.contains(r),
        forall|d: Seq<u8>| #[trigger] holds_dir(a, d) <==> holds_dir(b, d),
        forall|p: Seq<u8>| #[trigger] holds_repo(a, p) <==> holds_repo(b, p),
{
    a.to_multiset_ensures();
    b.to_multiset_ensures();
    assert forall|r: RecordView| #[trigger] a.contains(r) <==> b.contains(r) by {
        assert(a.contains(r) <==> a.to_multiset().count(r) > 0);
        assert(b.contains(r) <==> b.to_multiset().count(r) > 0);
    }
    assert forall|d: Seq<u8>| #[trigger] holds_dir(a, d) <==> holds_dir(b, d) by {
        if holds_dir(a, d) {
            let mtime = choose|mtime: i64| #[trigger]
                a.contains(RecordView { rel: d, mtime_ns: Some(mtime) });
            assert(b.contains(RecordView { rel: d, mtime_ns: Some(mtime) }));
        }
        if holds_dir(b, d) {
            let mtime = choose|mtime: i64| #[trigger]
                b.contains(RecordView { rel: d, mtime_ns: Some(mtime) });
            assert(a.contains(RecordView { rel: d, mtime_ns: Some(mtime) }));
        }
    }
}

/// What a walk of the whole root remembers is what there is to know: `records`
/// are those of its reads, in any order.
pub proof fn law_walk_remembers_everything(
    states: Seq<Progress>,
    order: Seq<Seq<u8>>,
    w: World,
    rules: Rules,
    mtimes: spec_fn(Seq<u8>) -> i64,
    records: Seq<RecordView>,
)
    requires
        w.coherent(),
        is_walk(states, order, w, rules),
        states.last().todo =~= Set::empty(),
        records.to_multiset() == walk_records(w, rules, mtimes, order).to_multiset(),
    ensures
        remembers(records, w, rules.exclude@),
{
    lemma_any_order(records, walk_records(w, rules, mtimes, order));
    assert forall|d: Seq<u8>| #[trigger] holds_dir(records, d) <==> reached(w, rules.exclude@, d)
        && !w.own_git(d) by {
        lemma_walk_remembers(states, order, w, rules, root_alone(), mtimes, d);
        lemma_reached_from_root(w, rules.exclude@, d);
    }
    assert forall|p: Seq<u8>| #[trigger] holds_repo(records, p) <==> repository(
        w,
        rules.exclude@,
        p,
    ) by {
        lemma_walk_remembers(states, order, w, rules, root_alone(), mtimes, p);
        lemma_repository_from_root(w, rules.exclude@, p);
    }
}

/// A directory that could not be opened leaves a gap where it was read.
proof fn lemma_gap(w: World, rules: Rules, d: Seq<u8>, i: int)
    requires
        unopened(w, rules.exclude@, d, i),
        !leaves_gap(events_at(w, rules, d)),
    ensures
        !shortens((w.facts)(d).entries[i].open->Failed_0),
{
    let facts = (w.facts)(d).entries[i];
    let e = facts.open->Failed_0;
    let path = w.child(d, i);
    let events = events_at(w, rules, d);
    assert(verdict((w.ents)(d)[i], path, rules, facts) is Unread);
    lemma_event_listed(d, (w.ents)(d), rules, (w.facts)(d), 0, i, EventView::Unread(path, e));
    let k = choose|k: int|
        0 <= k < events.len() && #[trigger] events[k] == EventView::Unread(path, e);
    assert(events[k] matches EventView::Unread(_, f) && f == e);
}

/// A walk of the whole root that noted no gap leaves out no subtree.
pub proof fn law_walk_without_gaps_is_whole(
    states: Seq<Progress>,
    order: Seq<Seq<u8>>,
    w: World,
    rules: Rules,
)
    requires
        w.coherent(),
        is_walk(states, order, w, rules),
        states.last().todo =~= Set::empty(),
        forall|k: int|
            0 <= k < order.len() ==> !leaves_gap(events_at(w, rules, #[trigger] order[k])),
    ensures
        is_whole(w, rules.exclude@),
{
    let exclude = rules.exclude@;
    let n = states.len() - 1;
    lemma_sound_walk(states, order, w, rules, root_alone(), n);
    assert(order.take(n) =~= order);
    assert forall|d: Seq<u8>, i: int|
        reached(w, exclude, d) && #[trigger] unopened(w, exclude, d, i) implies !shortens(
        (w.facts)(d).entries[i].open->Failed_0,
    ) by {
        lemma_reached_from_root(w, exclude, d);
        lemma_all_read(states.last(), w, rules, root_alone(), d);
        lemma_progress(states, order, w, rules, root_alone(), n, d);
        let k = choose|k: int| 0 <= k < order.len() && order[k] == d;
        assert(!leaves_gap(events_at(w, rules, order[k])));
        lemma_gap(w, rules, d, i);
    }
}

/// Whether the entry number `i` validated, and is kept as `r`.
spec fn keeps(index: IndexView, probes: Seq<Probe>, i: int, r: RecordView) -> bool {
    r.rel == index.entries[i].rel && match fate_at(index, probes, i) {
        Fate::KeepRepo => r.mtime_ns is None,
        Fate::KeepDir(mtime) => r.mtime_ns == Some(mtime),
        _ => false,
    }
}

/// Whether the entry number `i` did not validate, and has the path `s`.
spec fn gives_up(index: IndexView, probes: Seq<Probe>, i: int, s: Seq<u8>) -> bool {
    s == index.entries[i].rel && (fate_at(index, probes, i) is Racy || fate_at(index, probes, i)
        is Changed)
}

/// What the pass keeps are the entries that it consulted and that validated.
proof fn lemma_kept(index: IndexView, probes: Seq<Probe>, seen: Seq<int>, r: RecordView)
    ensures
        kept_records(index, probes, seen).contains(r) <==> exists|i: int|
            seen.contains(i) && #[trigger] keeps(index, probes, i, r),
    decreases seen.len(),
{
    if seen.len() > 0 {
        let front = seen.drop_last();
        let x = seen.last();
        lemma_kept(index, probes, front, r);
        let all = kept_records(index, probes, seen);
        let rest = kept_records(index, probes, front);
        assert(seen[seen.len() - 1] == x);
        assert(seen.contains(x));
        if all.contains(r) {
            let k = choose|k: int| 0 <= k < all.len() && all[k] == r;
            if k < rest.len() {
                assert(rest[k] == r);
                let i = choose|i: int|
                    front.contains(i) && #[trigger] keeps(index, probes, i, r);
                let m = choose|m: int| 0 <= m < front.len() && front[m] == i;
                assert(seen[m] == i);
                assert(seen.contains(i) && keeps(index, probes, i, r));
            } else {
                assert(keeps(index, probes, x, r));
            }
        }
        if exists|i: int| seen.contains(i) && #[trigger] keeps(index, probes, i, r) {
            let i = choose|i: int|
                seen.contains(i) && #[trigger] keeps(index, probes, i, r);
            let m = choose|m: int| 0 <= m < seen.len() && seen[m] == i;
            if m < front.len() {
                assert(front[m] == i);
                assert(front.contains(i));
                let k = choose|k: int| 0 <= k < rest.len() && rest[k] == r;
                assert(all[k] == r);
            } else {
                assert(all[all.len() - 1] == r);
            }
        }
    }
}

/// What the pass hands back are the entries that it consulted and that did
/// not validate.
proof fn lemma_handed_back(index: IndexView, probes: Seq<Probe>, seen: Seq<int>, s: Seq<u8>)
    ensures
        stale_paths(index, probes, seen).contains(s) <==> exists|i: int|
            seen.contains(i) && #[trigger] gives_up(index, probes, i, s),
    decreases seen.len(),
{
    if seen.len() > 0 {
        let front = seen.drop_last();
        let x = seen.last();
        lemma_handed_back(index, probes, front, s);
        let all = stale_paths(index, probes, seen);
        let rest = stale_paths(index, probes, front);
        assert(seen[seen.len() - 1] == x);
        assert(seen.contains(x));
        if all.contains(s) {
            let k = choose|k: int| 0 <= k < all.len() && all[k] == s;
            if k < rest.len() {
                assert(rest[k] == s);
                let i = choose|i: int|
                    front.contains(i) && #[trigger] gives_up(index, probes, i, s);
                let m = choose|m: int| 0 <= m < front.len() && front[m] == i;
                assert(seen[m] == i);
                assert(seen.contains(i) && gives_up(index, probes, i, s));
            } else {
                assert(gives_up(index, probes, x, s));
            }
        }
        if exists|i: int| seen.contains(i) && #[trigger] gives_up(index, probes, i, s) {
            let i = choose|i: int|
                seen.contains(i) && #[trigger] gives_up(index, probes, i, s);
            let m = choose|m: int| 0 <= m < seen.len() && seen[m] == i;
            if m < front.len() {
                assert(front[m] == i);
                assert(front.contains(i));
                let k = choose|k: int| 0 <= k < rest.len() && rest[k] == s;
                assert(all[k] == s);
            } else {
                assert(all[all.len() - 1] == s);
            }
        }
    }
}

/// Where the walk of stale paths starts, entry by entry.
proof fn lemma_starts(index: IndexView, probes: Seq<Probe>, seen: Seq<int>, w: World)
    requires
        is_visit(index, probes, seen),
        is_tree(index.entries),
        !holds_empty(stale_paths(index, probes, seen)),
    ensures
        starts(index, probes, w, reopened(w, stale_paths(index, probes, seen))),
        !is_stale(index, probes, 0),
{
    let stale = stale_paths(index, probes, seen);
    let start = reopened(w, stale);
    assert forall|s: Seq<u8>| #[trigger] start.contains(s) <==> can_open(w, s) && exists|i: int|
        #[trigger] is_stale(index, probes, i) && index.entries[i].rel == s by {
        lemma_handed_back(index, probes, seen, s);
        if stale.contains(s) {
            let i = choose|i: int|
                seen.contains(i) && #[trigger] gives_up(index, probes, i, s);
            assert(is_stale(index, probes, i));
        }
        if exists|i: int| #[trigger] is_stale(index, probes, i) && index.entries[i].rel == s {
            let i = choose|i: int| #[trigger]
                is_stale(index, probes, i) && index.entries[i].rel == s;
            assert(seen.contains(i) && gives_up(index, probes, i, s));
        }
    }
    if is_stale(index, probes, 0) {
        assert(seen.contains(0) && gives_up(index, probes, 0, index.entries[0].rel));
        lemma_handed_back(index, probes, seen, index.entries[0].rel);
        let k = choose|k: int| 0 <= k < stale.len() && stale[k] == index.entries[0].rel;
        assert(stale[k].len() == 0);
    }
}

/// A root listed through its index is listed as a walk of it would list it:
/// where equal mtimes mean equal directories, the records that the pass keeps
/// and those of the walk of the stale paths are together what a walk of the
/// whole root comes to know, so the repositories among them are exactly the
/// repositories below the root. That is what the next index is written from.
/// `walked` are the records of that walk, in any order.
pub proof fn law_index_lists_what_a_walk_would(
    index: IndexView,
    records: Seq<RecordView>,
    probes: Seq<Probe>,
    seen: Seq<int>,
    v: World,
    w: World,
    rules: Rules,
    states: Seq<Progress>,
    order: Seq<Seq<u8>>,
    mtimes: spec_fn(Seq<u8>) -> i64,
    walked: Seq<RecordView>,
)
    requires
        is_usable(index, records, probes, v, w, rules.exclude@),
        is_visit(index, probes, seen),
        !holds_empty(stale_paths(index, probes, seen)),
        is_walk_from(
            states,
            order,
            w,
            rules,
            reopened(w, stale_paths(index, probes, seen)),
        ),
        states.last().todo =~= Set::empty(),
        walked.to_multiset() == walk_records(w, rules, mtimes, order).to_multiset(),
    ensures
        remembers(kept_records(index, probes, seen) + walked, w, rules.exclude@),
        forall|x: Seq<u8>| #[trigger]
            recorded_repos(kept_records(index, probes, seen) + walked).contains(x) <==> exists|
                p: Seq<u8>,
            | #[trigger] repository(w, rules.exclude@, p) && x == printed(p),
        forall|p: Seq<u8>| #[trigger]
            repository(w, rules.exclude@, p) <==> holds_repo(
                kept_records(index, probes, seen),
                p,
            ) || states.last().found.contains(p),
{
    let exclude = rules.exclude@;
    let kept = kept_records(index, probes, seen);
    let stale = stale_paths(index, probes, seen);
    let start = reopened(w, stale);
    lemma_any_order(walked, walk_records(w, rules, mtimes, order));
    lemma_starts(index, probes, seen, w);
    assert forall|p: Seq<u8>|
        {
            &&& #[trigger] repository(w, exclude, p) <==> holds_repo(kept, p)
                || states.last().found.contains(p)
            &&& holds_repo(walked, p) <==> states.last().found.contains(p)
        } by {
        let r = RecordView { rel: p, mtime_ns: None };
        lemma_kept(index, probes, seen, r);
        lemma_walk_remembers(states, order, w, rules, start, mtimes, p);
        law_walk_from_finds_every_repository(states, order, w, rules, start, p);
        if holds_repo(kept, p) {
            let i = choose|i: int|
                seen.contains(i) && #[trigger] keeps(index, probes, i, r);
            lemma_kept_repo(index, records, probes, v, w, exclude, i);
        }
        if repository_from(w, exclude, start, p) {
            lemma_within_repo(index, records, probes, v, w, exclude, start, p);
        }
        if repository(w, exclude, p) {
            let i = lemma_cover_repo(index, records, probes, v, w, exclude, start, p);
            if !repository_from(w, exclude, start, p) {
                assert(seen.contains(i) && keeps(index, probes, i, r));
            }
        }
    }
    let all = kept + walked;
    assert forall|p: Seq<u8>| #[trigger] holds_repo(all, p) <==> repository(w, exclude, p) by {
        lemma_in_either(kept, walked, RecordView { rel: p, mtime_ns: None });
        assert(repository(w, exclude, p) <==> holds_repo(kept, p) || states.last().found.contains(
            p,
        ));
    }
    assert forall|d: Seq<u8>| #[trigger] holds_dir(all, d) <==> reached(w, exclude, d)
        && !w.own_git(d) by {
        lemma_walk_remembers(states, order, w, rules, start, mtimes, d);
        if holds_dir(all, d) {
            let mtime = choose|mtime: i64| #[trigger]
                all.contains(RecordView { rel: d, mtime_ns: Some(mtime) });
            let r = RecordView { rel: d, mtime_ns: Some(mtime) };
            lemma_in_either(kept, walked, r);
            if kept.contains(r) {
                lemma_kept(index, probes, seen, r);
                let i = choose|i: int|
                seen.contains(i) && #[trigger] keeps(index, probes, i, r);
                lemma_kept_dir(index, records, probes, v, w, exclude, i);
            } else {
                assert(holds_dir(walked, d));
                lemma_within(index, records, probes, v, w, exclude, start, d);
            }
        }
        if reached(w, exclude, d) && !w.own_git(d) {
            let i = lemma_cover(index, records, probes, v, w, exclude, start, d);
            if reached_from(w, exclude, start, d) {
                assert(holds_dir(walked, d));
                let mtime = choose|mtime: i64| #[trigger]
                    walked.contains(RecordView { rel: d, mtime_ns: Some(mtime) });
                lemma_in_either(kept, walked, RecordView { rel: d, mtime_ns: Some(mtime) });
            } else {
                assert(seen.contains(i));
                let mtime = fate_at(index, probes, i)->KeepDir_0;
                let r = RecordView { rel: d, mtime_ns: Some(mtime) };
                lemma_kept(index, probes, seen, r);
                assert(keeps(index, probes, i, r));
                lemma_in_either(kept, walked, r);
                assert(all.contains(r));
            }
        }
    }
    assert forall|x: Seq<u8>| #[trigger] recorded_repos(all).contains(x) <==> exists|p: Seq<u8>|
        #[trigger] repository(w, exclude, p) && x == printed(p) by {
        lemma_recorded(all, x);
        if recorded_repos(all).contains(x) {
            let p = choose|p: Seq<u8>| #[trigger] holds_repo(all, p) && x == printed(p);
            assert(repository(w, exclude, p));
        }
        if exists|p: Seq<u8>| #[trigger] repository(w, exclude, p) && x == printed(p) {
            let p = choose|p: Seq<u8>| #[trigger] repository(w, exclude, p) && x == printed(p);
            assert(holds_repo(all, p));
        }
    }
}

/// The repositories printed for records are those that they hold.
proof fn lemma_recorded(records: Seq<RecordView>, x: Seq<u8>)
    ensures
        recorded_repos(records).contains(x) <==> exists|p: Seq<u8>| #[trigger]
            holds_repo(records, p) && x == printed(p),
    decreases records.len(),
{
    if records.len() > 0 {
        let front = records.drop_last();
        let last = records.last();
        let all = recorded_repos(records);
        let rest = recorded_repos(front);
        lemma_recorded(front, x);
        if all.contains(x) {
            let k = choose|k: int| 0 <= k < all.len() && all[k] == x;
            if k < rest.len() {
                assert(rest[k] == x);
                let p = choose|p: Seq<u8>| #[trigger] holds_repo(front, p) && x == printed(p);
                let r = RecordView { rel: p, mtime_ns: None };
                let m = choose|m: int| 0 <= m < front.len() && front[m] == r;
                assert(records[m] == r);
                assert(holds_repo(records, p));
            } else {
                assert(records[records.len() - 1] == last);
                assert(last == RecordView { rel: last.rel, mtime_ns: None });
                assert(holds_repo(records, last.rel));
            }
        }
        if exists|p: Seq<u8>| #[trigger] holds_repo(records, p) && x == printed(p) {
            let p = choose|p: Seq<u8>| #[trigger] holds_repo(records, p) && x == printed(p);
            let r = RecordView { rel: p, mtime_ns: None };
            let m = choose|m: int| 0 <= m < records.len() && records[m] == r;
            if m < front.len() {
                assert(front[m] == r);
                assert(holds_repo(front, p));
                let k = choose|k: int| 0 <= k < rest.len() && rest[k] == x;
                assert(all[k] == x);
            } else {
                assert(all[all.len() - 1] == x);
            }
        }
    }
}

/// What two lists hold together.
proof fn lemma_in_either(a: Seq<RecordView>, b: Seq<RecordView>, r: RecordView)
    ensures
        (a + b).contains(r) <==> a.contains(r) || b.contains(r),
{
    if (a + b).contains(r) {
        let k = choose|k: int| 0 <= k < (a + b).len() && (a + b)[k] == r;
        if k < a.len() {
            assert(a[k] == r);
        } else {
            assert(b[k - a.len()] == r);
        }
    }
    if a.contains(r) {
        let k = choose|k: int| 0 <= k < a.len() && a[k] == r;
        assert((a + b)[k] == r);
    }
    if b.contains(r) {
        let k = choose|k: int| 0 <= k < b.len() && b[k] == r;
        assert((a + b)[a.len() + k] == r);
    }
}

/// What is listed through an index leaves out no subtree either, where the
/// walk of the stale paths opened all of them and noted no gap: so one index
/// after the other can be written and used.
pub proof fn law_index_stays_whole(
    index: IndexView,
    records: Seq<RecordView>,
    probes: Seq<Probe>,
    seen: Seq<int>,
    v: World,
    w: World,
    rules: Rules,
    states: Seq<Progress>,
    order: Seq<Seq<u8>>,
)
    requires
        is_usable(index, records, probes, v, w, rules.exclude@),
        is_visit(index, probes, seen),
        !holds_empty(stale_paths(index, probes, seen)),
        is_walk_from(
            states,
            order,
            w,
            rules,
            reopened(w, stale_paths(index, probes, seen)),
        ),
        states.last().todo =~= Set::empty(),
        forall|s: Seq<u8>| #[trigger]
            stale_paths(index, probes, seen).contains(s) ==> can_open(w, s),
        forall|k: int|
            0 <= k < order.len() ==> !leaves_gap(events_at(w, rules, #[trigger] order[k])),
    ensures
        is_whole(w, rules.exclude@),
{
    let exclude = rules.exclude@;
    let stale = stale_paths(index, probes, seen);
    let start = reopened(w, stale);
    let n = states.len() - 1;
    lemma_starts(index, probes, seen, w);
    lemma_sound_walk(states, order, w, rules, start, n);
    assert(order.take(n) =~= order);
    assert forall|d: Seq<u8>, j: int|
        reached(w, exclude, d) && #[trigger] unopened(w, exclude, d, j) implies !shortens(
        (w.facts)(d).entries[j].open->Failed_0,
    ) by {
        let a = lemma_cover(index, records, probes, v, w, exclude, start, d);
        if reached_from(w, exclude, start, d) {
            lemma_all_read(states.last(), w, rules, start, d);
            lemma_progress(states, order, w, rules, start, n, d);
            let k = choose|k: int| 0 <= k < order.len() && order[k] == d;
            assert(!leaves_gap(events_at(w, rules, order[k])));
            lemma_gap(w, rules, d, j);
        } else {
            lemma_kept_dir(index, records, probes, v, w, exclude, a);
            let before = (v.facts)(d).entries[j];
            let p = w.child(d, j);
            assert(v.child(d, j) == p);
            assert(v.opens(d, j) == is_queued(before.open));
            assert(w.opens(d, j) == is_queued((w.facts)(d).entries[j].open));
            if before.git {
                assert(yields(v, exclude, d, j, p));
                let i = lemma_repo_entry(index, records, v, exclude, p);
                lemma_down(index, records, probes, v, a, j, i);
                lemma_same_parent(v, d, j, parent_path(p));
                assert(!(probes[i] is Repo)) by {
                    assert(index.entries[i].rel == w.child(d, j));
                }
                assert(seen.contains(i) && gives_up(index, probes, i, p));
                lemma_handed_back(index, probes, seen, p);
                assert(can_open(w, p));
                let (e, l) = choose|e: Seq<u8>, l: int|
                    0 <= l < (w.ents)(e).len() && #[trigger] w.child(e, l) == p && w.kind_at(e, l)
                        is Dir && w.opens(e, l);
                lemma_child_unique(w, d, j, e, l);
            } else {
                assert(unopened(v, exclude, d, j));
            }
        }
    }
}

} // verus!
