//! Where index files live, when they are consulted, and what is written back.

use vstd::prelude::*;
use vstd::slice::slice_to_vec;

use super::assemble::{build, describes_records, rels, rooted};
use super::format::{decode, encode, encoded, is_file_of, is_tree, Index, IndexView};
use super::validate::{
    concludes, entry_record, is_settled, is_visit, kept_records, law_settled_index_answers_alone,
    stale_paths, walk_index, Outcome, Probe,
};
use crate::bytes::{bytes_eq, lists_eq, push_all, views};
use crate::paths::{is_absolute, is_absolute_path, join, joined_path};
use crate::sorting::{is_sorted, lemma_sorted_unique, sort_paths};
use crate::walk::{
    record_views, recorded_repos, recorded_size, ListingView, Record, RecordView, RootListing,
    WalkOptions,
};

verus! {

/// Whether, and how, `list` consults the repository index.
#[derive(Clone, Copy, PartialEq, Eq, Structural, Debug)]
pub enum Mode {
    /// Walk every root; never read or write an index.
    Off,
    /// Answer from the index where it validates, walk what it does not, and
    /// write the index back.
    On,
    /// Answer from the index and walk every root, compare the two, and report
    /// any difference. The printed listing is always the fresh walk's.
    Check,
}

/// The effective [`Mode`]: `--cache-check` is an operation of its own;
/// otherwise `--no-cache` beats `--cache`, which beats the configuration.
pub fn mode(cache: bool, no_cache: bool, cache_check: bool, configured: bool) -> (r: Mode)
    ensures
        r == if cache_check {
            Mode::Check
        } else if no_cache {
            Mode::Off
        } else if cache || configured {
            Mode::On
        } else {
            Mode::Off
        },
{
    if cache_check {
        return Mode::Check;
    }
    if no_cache {
        return Mode::Off;
    }
    if cache || configured {
        return Mode::On;
    }
    Mode::Off
}

/// `--no-cache` wins over every way of turning the index on.
pub proof fn law_no_cache_wins(cache: bool, configured: bool, r: Mode)
    requires
        call_ensures(mode, (cache, true, false, configured), r),
    ensures
        r == Mode::Off,
{
}

/// The offset basis of 64-bit FNV-1a.
pub const FNV_OFFSET: u64 = 0xcbf2_9ce4_8422_2325;

/// The prime of 64-bit FNV-1a.
pub const FNV_PRIME: u64 = 0x0000_0100_0000_01b3;

/// 64-bit FNV-1a.
pub open spec fn fnv1a(bytes: Seq<u8>) -> u64
    decreases bytes.len(),
{
    if bytes.len() == 0 {
        FNV_OFFSET
    } else {
        (fnv1a(bytes.drop_last()) ^ (bytes.last() as u64)).wrapping_mul(FNV_PRIME)
    }
}

/// FNV-1a, 64-bit. The hash only picks a file name; the file itself carries
/// the root path that a collision would have to match.
pub fn fnv1a64(bytes: &[u8]) -> (r: u64)
    ensures
        r == fnv1a(bytes@),
{
    let mut hash: u64 = FNV_OFFSET;
    let mut i: usize = 0;
    assert(bytes@.take(0) =~= Seq::empty());
    while i < bytes.len()
        invariant
            i <= bytes@.len(),
            hash == fnv1a(bytes@.take(i as int)),
        decreases bytes@.len() - i,
    {
        assert(bytes@.take(i + 1).drop_last() =~= bytes@.take(i as int));
        hash = (hash ^ (bytes[i] as u64)).wrapping_mul(FNV_PRIME);
        i += 1;
    }
    assert(bytes@.take(i as int) =~= bytes@);
    hash
}

/// One hexadecimal digit, in lower case.
pub open spec fn hex_digit(d: u64) -> u8 {
    if d < 10 {
        (0x30 + d) as u8
    } else {
        (0x57 + d) as u8
    }
}

/// The `n` low hexadecimal digits of `x`, most significant first.
pub open spec fn hex_digits(x: u64, n: nat) -> Seq<u8>
    decreases n,
{
    if n == 0 {
        Seq::empty()
    } else {
        hex_digits(x / 16, (n - 1) as nat).push(hex_digit(x % 16))
    }
}

/// The `n` low hexadecimal digits of `x`.
fn hex(x: u64, n: usize) -> (r: Vec<u8>)
    ensures
        r@ == hex_digits(x, n as nat),
    decreases n,
{
    if n == 0 {
        return Vec::new();
    }
    let mut out = hex(x / 16, n - 1);
    let d: u64 = x % 16;
    out.push(if d < 10 { 0x30 + d as u8 } else { 0x57 + d as u8 });
    out
}

/// `index-`.
pub const INDEX_PREFIX: [u8; 6] = [0x69, 0x6e, 0x64, 0x65, 0x78, 0x2d];

/// `.bin`.
pub const INDEX_SUFFIX: [u8; 4] = [0x2e, 0x62, 0x69, 0x6e];

/// `scap`.
pub const SCAP_DIR: [u8; 4] = [0x73, 0x63, 0x61, 0x70];

/// `.cache`.
pub const CACHE_DIR: [u8; 6] = [0x2e, 0x63, 0x61, 0x63, 0x68, 0x65];

/// The name of a root's index file.
pub open spec fn index_name(root: Seq<u8>) -> Seq<u8> {
    INDEX_PREFIX@ + hex_digits(fnv1a(root), 16) + INDEX_SUFFIX@
}

/// The directory of index files: `$XDG_CACHE_HOME/scap` where that holds an
/// absolute path, else `$HOME/.cache/scap`, else none.
pub open spec fn cache_dir(xdg: Option<Seq<u8>>, home: Option<Seq<u8>>) -> Option<Seq<u8>> {
    if xdg is Some && is_absolute_path(xdg->0) {
        Some(joined_path(xdg->0, SCAP_DIR@))
    } else {
        match home {
            Some(h) => Some(joined_path(joined_path(h, CACHE_DIR@), SCAP_DIR@)),
            None => None,
        }
    }
}

/// What an optional byte slice holds.
pub open spec fn slice_view(s: Option<&[u8]>) -> Option<Seq<u8>> {
    match s {
        Some(v) => Some(v@),
        None => None,
    }
}

/// The directory of index files, from `XDG_CACHE_HOME` and the home
/// directory.
pub fn cache_dir_from(xdg: Option<&[u8]>, home: Option<&[u8]>) -> (r: Option<Vec<u8>>)
    ensures
        crate::bytes::opt_view(r) == cache_dir(slice_view(xdg), slice_view(home)),
{
    match xdg {
        Some(x) => {
            if is_absolute(x) {
                return Some(join(x, SCAP_DIR.as_slice()));
            }
        },
        None => {},
    }
    match home {
        Some(h) => Some(join(join(h, CACHE_DIR.as_slice()).as_slice(), SCAP_DIR.as_slice())),
        None => None,
    }
}

/// A device or inode number widened to the type the file format stores; one
/// out of range collapses to the largest, which makes the index look like
/// another root's.
pub fn ident(value: i128) -> (r: u64)
    ensures
        r == if 0 <= value <= u64::MAX { value as u64 } else { u64::MAX },
{
    if 0 <= value && value <= u64::MAX as i128 {
        value as u64
    } else {
        u64::MAX
    }
}

/// A time in nanoseconds since the Unix epoch, from its distance to the epoch
/// and whether it lies before it; saturating.
pub fn now_ns(nanos: u128, before_epoch: bool) -> (r: i64)
    ensures
        r == if nanos <= i64::MAX {
            if before_epoch {
                -(nanos as int)
            } else {
                nanos as int
            }
        } else if before_epoch {
            i64::MIN as int
        } else {
            i64::MAX as int
        },
{
    if nanos <= i64::MAX as u128 {
        if before_epoch {
            -(nanos as i64)
        } else {
            nanos as i64
        }
    } else if before_epoch {
        i64::MIN
    } else {
        i64::MAX
    }
}

/// What a root is: its path, device, inode, and the exclusions in force.
pub open spec fn matches_root(
    index: IndexView,
    root: Seq<u8>,
    dev: u64,
    ino: u64,
    exclude: Seq<Seq<u8>>,
) -> bool {
    &&& index.root == root
    &&& index.dev == dev
    &&& index.ino == ino
    &&& index.exclude == exclude
}

/// Whether `index` was written for exactly this root, under exactly these
/// exclusions. The path guards against a hash collision; the device and inode
/// against the path being another directory than it was; the exclusions
/// against a pattern that was removed.
pub fn describes(
    index: &Index,
    root: &[u8],
    dev: u64,
    ino: u64,
    exclude: &Vec<Vec<u8>>,
) -> (r: bool)
    ensures
        r == matches_root(index@, root@, dev, ino, views(exclude@)),
{
    bytes_eq(index.root.as_slice(), root) && index.dev == dev && index.ino == ino && lists_eq(
        &index.exclude,
        exclude,
    )
}

/// The exclusion patterns in force, in order.
pub fn exclude_patterns(opts: &WalkOptions) -> (r: Vec<Vec<u8>>)
    ensures
        views(r@) == Seq::new(opts.exclude@.len(), |i: int| opts.exclude@[i]@),
{
    let mut out: Vec<Vec<u8>> = Vec::new();
    let mut i: usize = 0;
    while i < opts.exclude.len()
        invariant
            i <= opts.exclude@.len(),
            out@.len() == i,
            forall|j: int| 0 <= j < i ==> (#[trigger] out@[j])@ == opts.exclude@[j]@,
        decreases opts.exclude@.len() - i,
    {
        out.push(slice_to_vec(opts.exclude[i].as_bytes()));
        i += 1;
    }
    assert(views(out@) =~= Seq::new(opts.exclude@.len(), |i: int| opts.exclude@[i]@));
    out
}

/// The directory index files live in. A cache with nowhere to live is still
/// one: nothing is found in it and nothing is written.
#[derive(Debug)]
pub struct Cache {
    pub dir: Option<Vec<u8>>,
}

impl Cache {
    /// The cache in `$XDG_CACHE_HOME/scap`, else `$HOME/.cache/scap`, else
    /// nowhere.
    pub fn from_env(xdg: Option<&[u8]>, home: Option<&[u8]>) -> (r: Self)
        ensures
            crate::bytes::opt_view(r.dir) == cache_dir(slice_view(xdg), slice_view(home)),
    {
        Cache { dir: cache_dir_from(xdg, home) }
    }

    /// A cache living in `dir`.
    pub fn in_dir(dir: Vec<u8>) -> (r: Self)
        ensures
            r.dir == Some(dir),
    {
        Cache { dir: Some(dir) }
    }

    /// This root's index file, or `None` when there is nowhere to keep one.
    pub fn path_for(&self, root: &[u8]) -> (r: Option<Vec<u8>>)
        ensures
            crate::bytes::opt_view(r) == match self.dir {
                Some(dir) => Some(joined_path(dir@, index_name(root@))),
                None => None,
            },
    {
        match &self.dir {
            Some(dir) => {
                let mut name: Vec<u8> = Vec::new();
                push_all(&mut name, INDEX_PREFIX.as_slice());
                push_all(&mut name, hex(fnv1a64(root), 16).as_slice());
                push_all(&mut name, INDEX_SUFFIX.as_slice());
                assert(name@ =~= index_name(root@));
                Some(join(dir.as_slice(), name.as_slice()))
            },
            None => None,
        }
    }

    /// The index this run may believe: the one that the file's bytes hold,
    /// where there is a file, it decodes, and it describes this root. `None`
    /// means that the whole root is to be walked.
    pub fn cached_listing(
        &self,
        file: Option<&[u8]>,
        root: &[u8],
        identity: Option<(u64, u64)>,
        exclude: &Vec<Vec<u8>>,
    ) -> (r: Option<Index>)
        ensures
            r matches Some(index) ==> {
                &&& file is Some
                &&& is_file_of(file->0@, index@)
                &&& identity is Some
                &&& matches_root(
                    index@,
                    root@,
                    (identity->0).0,
                    (identity->0).1,
                    views(exclude@),
                )
            },
            forall|index: IndexView|
                file is Some && identity is Some && #[trigger] is_file_of(file->0@, index)
                    && matches_root(
                    index,
                    root@,
                    (identity->0).0,
                    (identity->0).1,
                    views(exclude@),
                ) ==> r is Some && r->0@ == index,
    {
        let bytes = match file {
            Some(bytes) => bytes,
            None => return None,
        };
        let index = match decode(bytes) {
            Some(index) => index,
            None => return None,
        };
        match identity {
            Some((dev, ino)) => {
                if describes(&index, root, dev, ino, exclude) {
                    Some(index)
                } else {
                    None
                }
            },
            None => None,
        }
    }

    /// The bytes to write for this listing: none when the listing is short,
    /// for then the surviving entries would validate on the next run and
    /// nothing would say that a subtree is missing.
    pub fn store_if_complete(
        &self,
        root: &[u8],
        exclude: &Vec<Vec<u8>>,
        listing: &RootListing,
        identity: Option<(u64, u64)>,
        written_ns: i64,
    ) -> (r: Option<Vec<u8>>)
        ensures
            listing@.incomplete ==> r is None,
            r is Some ==> !listing@.incomplete && self.dir is Some && identity is Some && rooted(
                listing@.records,
            ),
            !listing@.incomplete && self.dir is Some && identity is Some && rooted(listing@.records)
                && listing@.records.len() <= u32::MAX ==> r is Some,
            r matches Some(bytes) ==> exists|index: IndexView|
                #![trigger encoded(index)]
                bytes@ == encoded(index) && matches_root(
                    index,
                    root@,
                    (identity->0).0,
                    (identity->0).1,
                    views(exclude@),
                ) && index.written_ns == written_ns && describes_records(
                    index.entries,
                    listing@.records,
                ),
    {
        if listing.incomplete() || self.dir.is_none() {
            return None;
        }
        match identity {
            Some((dev, ino)) => match build(
                root,
                exclude,
                listing.records(),
                dev,
                ino,
                written_ns,
            ) {
                Some(index) => {
                    let bytes = encode(&index);
                    assert(bytes@ == encoded(index@));
                    Some(bytes)
                },
                None => None,
            },
            None => None,
        }
    }
}

/// Whether some path of a list is empty.
pub open spec fn holds_empty(paths: Seq<Seq<u8>>) -> bool {
    exists|i: int| 0 <= i < paths.len() && (#[trigger] paths[i]).len() == 0
}

/// Validates an index against the probes of its entries. `None` when the root
/// itself did not validate: there is no parent left to re-walk from, so the
/// whole root is to be walked.
pub fn validated(index: &Index, probes: &Vec<Probe>) -> (r: Option<Outcome>)
    requires
        is_tree(index@.entries),
        probes@.len() == index@.entries.len(),
    ensures
        exists|seen: Seq<int>, out: Outcome|
            #![trigger is_visit(index@, probes@, seen), concludes(out, index@, probes@, seen)]
            is_visit(index@, probes@, seen) && concludes(out, index@, probes@, seen) && r == (
            if holds_empty(views(out.stale@)) {
                None
            } else {
                Some(out)
            }),
{
    let out = walk_index(index, probes);
    let ghost seen = choose|seen: Seq<int>|
        #![trigger is_visit(index@, probes@, seen)]
        is_visit(index@, probes@, seen) && concludes(out, index@, probes@, seen);
    let ghost stale = views(out.stale@);
    let mut i: usize = 0;
    while i < out.stale.len()
        invariant
            i <= out.stale@.len(),
            stale == views(out.stale@),
            is_visit(index@, probes@, seen),
            concludes(out, index@, probes@, seen),
            forall|j: int| 0 <= j < i ==> (#[trigger] stale[j]).len() > 0,
        decreases out.stale@.len() - i,
    {
        if out.stale[i].len() == 0 {
            assert(stale[i as int].len() == 0);
            assert(holds_empty(stale));
            return None;
        }
        assert(stale[i as int] == out.stale@[i as int]@);
        i += 1;
    }
    Some(out)
}

/// How far the listing of a root through its index has come.
#[derive(Debug)]
pub enum Stage<'a> {
    /// The index file was read, where there is one, and the root's device and
    /// inode, where it can be opened.
    Opened { file: Option<&'a [u8]>, identity: Option<(u64, u64)> },
    /// The entries of the index were probed.
    Probed { index: &'a Index, probes: &'a Vec<Probe> },
}

/// What the listing of a root through its index needs next.
#[derive(Debug)]
pub enum ListStep {
    /// There is nothing to believe: the whole root is to be walked.
    Walk,
    /// The entries of this index are to be probed.
    Probe(Index),
    /// What validated stands, and the stale paths are to be walked.
    Rewalk(Outcome),
}

impl Cache {
    /// Lists a root through its index: what the index file holds decides
    /// whether its entries are probed, and the probes decide what is walked.
    pub fn list_root(&self, root: &[u8], exclude: &Vec<Vec<u8>>, stage: Stage<'_>) -> (r: ListStep)
        requires
            stage matches Stage::Probed { index, probes } ==> is_tree(index@.entries)
                && probes@.len() == index@.entries.len(),
        ensures
            match (stage, r) {
                (Stage::Opened { file, identity }, ListStep::Probe(index)) => {
                    &&& file is Some
                    &&& is_file_of(file->0@, index@)
                    &&& identity is Some
                    &&& matches_root(
                        index@,
                        root@,
                        (identity->0).0,
                        (identity->0).1,
                        views(exclude@),
                    )
                },
                (Stage::Opened { file, identity }, ListStep::Walk) => forall|index: IndexView|
                    file is Some && identity is Some ==> !(#[trigger] is_file_of(file->0@, index)
                        && matches_root(
                        index,
                        root@,
                        (identity->0).0,
                        (identity->0).1,
                        views(exclude@),
                    )),
                (Stage::Probed { index, probes }, ListStep::Rewalk(out)) => {
                    &&& !holds_empty(views(out.stale@))
                    &&& exists|seen: Seq<int>| #[trigger]
                        is_visit(index@, probes@, seen) && concludes(out, index@, probes@, seen)
                },
                (Stage::Probed { index, probes }, ListStep::Walk) => exists|
                    seen: Seq<int>,
                    out: Outcome,
                |
                    #![trigger is_visit(index@, probes@, seen), concludes(out, index@, probes@, seen)]
                    is_visit(index@, probes@, seen) && concludes(out, index@, probes@, seen)
                        && holds_empty(views(out.stale@)),
                _ => false,
            },
    {
        match stage {
            Stage::Opened { file, identity } => match self.cached_listing(
                file,
                root,
                identity,
                exclude,
            ) {
                Some(index) => ListStep::Probe(index),
                None => ListStep::Walk,
            },
            Stage::Probed { index, probes } => match validated(index, probes) {
                Some(out) => ListStep::Rewalk(out),
                None => ListStep::Walk,
            },
        }
    }
}

/// The listing that a validated index and the re-walk of its stale paths
/// make: a re-walk that dropped a subtree makes the whole answer short.
pub fn merged(fresh: Vec<Record>, rewalked: RootListing) -> (r: RootListing)
    requires
        recorded_size(record_views(fresh@) + rewalked@.records) <= u32::MAX,
    ensures
        r.wf(),
        r@ == (ListingView {
            repos: recorded_repos(record_views(fresh@) + rewalked@.records),
            dirs_read: rewalked@.dirs_read,
            excluded: rewalked@.excluded,
            records: record_views(fresh@) + rewalked@.records,
            incomplete: rewalked@.incomplete,
        }),
{
    let dirs_read = rewalked.dirs_read();
    let excluded = rewalked.excluded();
    let incomplete = rewalked.incomplete();
    let mut records = fresh;
    let mut more = rewalked.into_records();
    let ghost tail = more@;
    records.append(&mut more);
    assert(record_views(records@) =~= record_views(fresh@) + record_views(tail));
    RootListing::from_records(records, dirs_read, excluded, incomplete)
}

/// The elements of `a` that `b` does not hold, in order.
pub open spec fn missing_from(a: Seq<Seq<u8>>, b: Seq<Seq<u8>>) -> Seq<Seq<u8>> {
    crate::bytes::kept(a, |p: Seq<u8>| !b.contains(p))
}

/// Whether a list holds a path.
fn holds(list: &Vec<Vec<u8>>, path: &[u8]) -> (r: bool)
    ensures
        r == views(list@).contains(path@),
{
    let mut i: usize = 0;
    while i < list.len()
        invariant
            i <= list@.len(),
            forall|j: int| 0 <= j < i ==> (#[trigger] views(list@)[j]) != path@,
        decreases list@.len() - i,
    {
        if bytes_eq(list[i].as_slice(), path) {
            assert(views(list@)[i as int] == path@);
            return true;
        }
        i += 1;
    }
    false
}

/// The elements of `a` that `b` does not hold, in order.
fn minus(a: &Vec<Vec<u8>>, b: &Vec<Vec<u8>>) -> (r: Vec<Vec<u8>>)
    ensures
        views(r@) == missing_from(views(a@), views(b@)),
{
    let ghost av = views(a@);
    let ghost bv = views(b@);
    let ghost keep = |p: Seq<u8>| !bv.contains(p);
    let mut out: Vec<Vec<u8>> = Vec::new();
    let mut i: usize = 0;
    assert(av.take(0) =~= Seq::empty());
    assert(views(out@) =~= crate::bytes::kept(av.take(0), keep));
    while i < a.len()
        invariant
            i <= a@.len(),
            av == views(a@),
            bv == views(b@),
            keep == (|p: Seq<u8>| !bv.contains(p)),
            views(out@) == crate::bytes::kept(av.take(i as int), keep),
        decreases a@.len() - i,
    {
        assert(av.take(i + 1).drop_last() =~= av.take(i as int));
        assert(av[i as int] == a@[i as int]@);
        if !holds(b, a[i].as_slice()) {
            let ghost before = out@;
            out.push(slice_to_vec(a[i].as_slice()));
            assert(views(out@) =~= views(before).push(a@[i as int]@));
        }
        i += 1;
    }
    assert(av.take(i as int) =~= av);
    out
}

/// What two listings disagree about.
#[derive(Debug)]
pub struct Difference {
    /// In the index, not on disk.
    pub gone: Vec<Vec<u8>>,
    /// On disk, not in the index.
    pub added: Vec<Vec<u8>>,
}

/// Copies of the repositories of a listing.
fn repo_list(listing: &RootListing) -> (r: Vec<Vec<u8>>)
    requires
        listing.wf(),
    ensures
        views(r@) == listing@.repos,
{
    let repos = listing.repos();
    let mut out: Vec<Vec<u8>> = Vec::new();
    let mut i: usize = 0;
    while i < repos.len()
        invariant
            i <= repos@.len(),
            repos@.len() == listing@.repos.len(),
            forall|j: int| 0 <= j < repos@.len() ==> (#[trigger] repos@[j])@ == listing@.repos[j],
            out@.len() == i,
            forall|j: int| 0 <= j < i ==> (#[trigger] out@[j])@ == listing@.repos[j],
        decreases repos@.len() - i,
    {
        out.push(slice_to_vec(repos[i]));
        i += 1;
    }
    assert(views(out@) =~= listing@.repos);
    out
}

/// What the index's listing and a fresh walk's disagree about, each side in
/// order, or `None` when they list the same repositories.
pub fn report_diff(cached: &RootListing, fresh: &RootListing) -> (r: Option<Difference>)
    requires
        cached.wf(),
        fresh.wf(),
    ensures
        r is None <==> cached@.repos.to_multiset() == fresh@.repos.to_multiset(),
        r matches Some(d) ==> exists|c: Seq<Seq<u8>>, f: Seq<Seq<u8>>|
            #![trigger is_sorted(c), is_sorted(f)]
            is_sorted(c) && is_sorted(f) && c.to_multiset() == cached@.repos.to_multiset()
                && f.to_multiset() == fresh@.repos.to_multiset() && views(d.gone@) == missing_from(
                c,
                f,
            ) && views(d.added@) == missing_from(f, c),
{
    let c = sort_paths(&repo_list(cached));
    let f = sort_paths(&repo_list(fresh));
    if lists_eq(&c, &f) {
        return None;
    }
    proof {
        if cached@.repos.to_multiset() == fresh@.repos.to_multiset() {
            lemma_sorted_unique(views(c@), views(f@));
        }
        assert(is_sorted(views(c@)) && is_sorted(views(f@)));
    }
    Some(Difference { gone: minus(&c, &f), added: minus(&f, &c) })
}

/// What the index's listing, where there was an index to believe, and a fresh
/// walk of the root disagree about.
pub fn check_root(cached: Option<&RootListing>, fresh: &RootListing) -> (r: Option<Difference>)
    requires
        cached matches Some(listing) ==> listing.wf(),
        fresh.wf(),
    ensures
        r is None <==> (cached matches Some(listing) ==> listing@.repos.to_multiset()
            == fresh@.repos.to_multiset()),
        r matches Some(d) ==> exists|c: Seq<Seq<u8>>, f: Seq<Seq<u8>>|
            #![trigger is_sorted(c), is_sorted(f)]
            is_sorted(c) && is_sorted(f) && c.to_multiset() == cached->0@.repos.to_multiset()
                && f.to_multiset() == fresh@.repos.to_multiset() && views(d.gone@) == missing_from(
                c,
                f,
            ) && views(d.added@) == missing_from(f, c),
{
    match cached {
        Some(listing) => report_diff(listing, fresh),
        None => None,
    }
}

/// While nothing moves, a root is listed through its index as it was walked:
/// of the index written from a walk's records the pass keeps exactly those
/// records, and no directory is read again.
pub proof fn law_warm_index_repeats_the_walk(
    index: IndexView,
    records: Seq<RecordView>,
    probes: Seq<Probe>,
    seen: Seq<int>,
    record: RecordView,
)
    requires
        describes_records(index.entries, records),
        forall|j: int, k: int|
            0 <= j < records.len() && 0 <= k < records.len() && (#[trigger] records[j]).rel == (
            #[trigger] records[k]).rel ==> records[j] == records[k],
        is_tree(index.entries),
        probes.len() == index.entries.len(),
        is_settled(index, probes),
        is_visit(index, probes, seen),
    ensures
        kept_records(index, probes, seen).contains(record) <==> records.contains(record),
        stale_paths(index, probes, seen) == Seq::<Seq<u8>>::empty(),
{
    law_settled_index_answers_alone(index, probes, seen);
    let kept = kept_records(index, probes, seen);
    if kept.contains(record) {
        let j = choose|j: int| 0 <= j < kept.len() && kept[j] == record;
        assert(seen.contains(seen[j]));
        assert(record == entry_record(index, seen[j]));
        assert(index.entries[seen[j]] == index.entries[seen[j]]);
    }
    if records.contains(record) {
        let k = choose|k: int| 0 <= k < records.len() && records[k] == record;
        assert(rels(index.entries).contains(records[k].rel));
        let i = choose|i: int|
            0 <= i < rels(index.entries).len() && rels(index.entries)[i] == records[k].rel;
        assert(index.entries[i].rel == record.rel);
        assert(records.contains(entry_record(index, i)));
        let m = choose|m: int| 0 <= m < records.len() && records[m] == entry_record(index, i);
        assert(records[m].rel == records[k].rel);
        assert(seen.contains(i));
        let j = choose|j: int| 0 <= j < seen.len() && seen[j] == i;
        assert(kept[j] == record);
    }
}

} // verus!
