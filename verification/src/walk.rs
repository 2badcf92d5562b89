//! Walking a root for repositories.

use vstd::prelude::*;
use vstd::slice::{slice_subrange, slice_to_vec};

use self::arena::Arena;
use self::pool::MAX_THREADS;
use self::sys::{is_denied, is_git_name, printed, type_of_mode, Errno, Kind, Out, GIT_NAME};
use crate::bytes::{ends_with, find_byte};
use crate::paths::{file_name, last_name};
use crate::text::{lossy_text, path_str, path_text, shown_path};

pub mod alike;
pub mod arena;
pub mod laws;
pub mod model;
pub mod once;
pub mod pool;
pub mod sys;

verus! {

/// Worker threads a walk uses unless the caller says otherwise.
pub const DEFAULT_THREADS: usize = 4;

/// Which of the two `.git` detection strategies the walk uses. They find the
/// same repositories and differ only in how much I/O they spend.
#[derive(Clone, Copy, PartialEq, Eq, Structural, Debug)]
pub enum DetectStrategy {
    /// Open every candidate directory and look for `.git` among its entries.
    OpenScan,
    /// `stat` the candidate's `.git` before opening it, and never open a
    /// repository.
    StatFirst,
}

impl Default for DetectStrategy {
    fn default() -> (r: Self)
        ensures
            r is OpenScan,
    {
        DetectStrategy::OpenScan
    }
}

/// Git's wildmatch under `WM_PATHNAME`: whether a pattern matches a path.
pub uninterp spec fn wildmatch(pattern: Seq<u8>, path: Seq<u8>) -> bool;

/// Whether `pattern` matches all of `path`.
///
/// Calls `gix_glob::wildmatch` with `NO_MATCH_SLASH_LITERAL`, so that `*` and
/// `?` stop at a `/` while `**` crosses it. The result is a function of the
/// two byte strings.
#[verifier::external_body]
fn glob_matches(pattern: &[u8], path: &[u8]) -> (r: bool)
    ensures
        r == wildmatch(pattern@, path@),
{
    gix_glob::wildmatch(
        bstr::ByteSlice::as_bstr(pattern),
        bstr::ByteSlice::as_bstr(path),
        gix_glob::wildmatch::Mode::NO_MATCH_SLASH_LITERAL,
    )
}

/// One exclusion pattern, ready to match. Patterns arrive already folded, so
/// this type performs no folding of its own.
#[derive(Clone, Debug)]
pub struct Pattern {
    text: Vec<u8>,
}

impl View for Pattern {
    type V = Seq<u8>;

    closed spec fn view(&self) -> Seq<u8> {
        self.text@
    }
}

impl Pattern {
    /// Builds a pattern from its configured spelling.
    pub fn new(pattern: &str) -> (r: Self)
        ensures
            r@ == vstd::utf8::encode_utf8(pattern@),
    {
        Pattern { text: slice_to_vec(pattern.as_bytes()) }
    }

    /// The pattern's spelling.
    pub fn as_bytes(&self) -> (r: &[u8])
        ensures
            r@ == self@,
    {
        self.text.as_slice()
    }

    /// Whether `rel`, a root-relative path, is excluded by this pattern: the
    /// match is against the whole path, so anchored at the root.
    pub fn matches(&self, rel: &[u8]) -> (r: bool)
        ensures
            r == wildmatch(self@, rel@),
    {
        glob_matches(self.text.as_slice(), rel)
    }
}

/// Whether any of the patterns matches `rel`.
pub open spec fn excluded_by(patterns: Seq<Pattern>, rel: Seq<u8>) -> bool {
    exists|i: int| 0 <= i < patterns.len() && wildmatch(#[trigger] patterns[i]@, rel)
}

/// Whether `rel` matches any configured exclusion.
pub fn is_excluded(patterns: &Vec<Pattern>, rel: &[u8]) -> (r: bool)
    ensures
        r == excluded_by(patterns@, rel@),
{
    let mut i: usize = 0;
    while i < patterns.len()
        invariant
            i <= patterns@.len(),
            forall|j: int| 0 <= j < i ==> !wildmatch(#[trigger] patterns@[j]@, rel@),
        decreases patterns@.len() - i,
    {
        if patterns[i].matches(rel) {
            assert(wildmatch(patterns@[i as int]@, rel@));
            return true;
        }
        i += 1;
    }
    false
}

/// One thing a walk remembers for the index: a directory with the mtime it
/// had when it was read, or a repository.
#[derive(Debug)]
pub struct Record {
    rel: Vec<u8>,
    mtime_ns: Option<i64>,
}

/// What a [`Record`] holds.
pub struct RecordView {
    pub rel: Seq<u8>,
    pub mtime_ns: Option<i64>,
}

impl View for Record {
    type V = RecordView;

    closed spec fn view(&self) -> RecordView {
        RecordView { rel: self.rel@, mtime_ns: self.mtime_ns }
    }
}

/// What a list of records holds.
pub open spec fn record_views(v: Seq<Record>) -> Seq<RecordView> {
    Seq::new(v.len(), |i: int| v[i]@)
}

impl Record {
    /// A repository at `rel`.
    pub fn repo(rel: &[u8]) -> (r: Self)
        ensures
            r@ == (RecordView { rel: rel@, mtime_ns: None }),
    {
        Record { rel: slice_to_vec(rel), mtime_ns: None }
    }

    /// A directory at `rel`, read when it had this mtime.
    pub fn dir(rel: &[u8], mtime_ns: i64) -> (r: Self)
        ensures
            r@ == (RecordView { rel: rel@, mtime_ns: Some(mtime_ns) }),
    {
        Record { rel: slice_to_vec(rel), mtime_ns: Some(mtime_ns) }
    }

    /// The root-relative path.
    pub fn rel(&self) -> (r: &[u8])
        ensures
            r@ == self@.rel,
    {
        self.rel.as_slice()
    }

    /// The mtime of a directory, or `None` for a repository.
    pub fn mtime_ns(&self) -> (r: Option<i64>)
        ensures
            r == self@.mtime_ns,
    {
        self.mtime_ns
    }
}

/// Whether a byte is a decimal digit.
pub open spec fn is_digit(b: u8) -> bool {
    0x30 <= b <= 0x39
}

/// Whether a byte string is a decimal number.
pub open spec fn is_decimal(s: Seq<u8>) -> bool {
    s.len() > 0 && forall|i: int| 0 <= i < s.len() ==> is_digit(#[trigger] s[i])
}

/// The number that decimal digits stand for.
pub open spec fn decimal_value(s: Seq<u8>) -> nat
    decreases s.len(),
{
    if s.len() == 0 {
        0
    } else {
        (10 * decimal_value(s.drop_last()) + (s.last() - 0x30)) as nat
    }
}

/// More digits never stand for a smaller number.
pub proof fn lemma_decimal_grows(s: Seq<u8>, n: int)
    requires
        is_decimal(s),
        0 <= n <= s.len(),
    ensures
        decimal_value(s.take(n)) <= decimal_value(s),
    decreases s.len() - n,
{
    if n < s.len() {
        lemma_decimal_grows(s, n + 1);
        assert(s.take(n + 1).drop_last() =~= s.take(n));
        assert(is_digit(s[n]));
    } else {
        assert(s.take(n) =~= s);
    }
}

/// The number a byte string stands for, where it is decimal and at most
/// `max`.
pub fn parse_decimal(s: &[u8], max: u64) -> (r: Option<u64>)
    requires
        max <= 0xffff_ffff,
    ensures
        match r {
            Some(n) => is_decimal(s@) && n == decimal_value(s@) && n <= max,
            None => !is_decimal(s@) || decimal_value(s@) > max,
        },
{
    if s.len() == 0 {
        return None;
    }
    let mut n: u64 = 0;
    let mut i: usize = 0;
    assert(s@.take(0) =~= Seq::empty());
    while i < s.len()
        invariant
            i <= s@.len(),
            max <= 0xffff_ffff,
            n <= max,
            n == decimal_value(s@.take(i as int)),
            forall|j: int| 0 <= j < i ==> is_digit(#[trigger] s@[j]),
        decreases s@.len() - i,
    {
        let b = s[i];
        if b < 0x30 || b > 0x39 {
            assert(!is_digit(s@[i as int]));
            return None;
        }
        let next = 10 * n + (b - 0x30) as u64;
        assert(s@.take(i + 1).drop_last() =~= s@.take(i as int));
        if next > max {
            proof {
                if is_decimal(s@) {
                    lemma_decimal_grows(s@, i + 1);
                }
            }
            return None;
        }
        n = next;
        i += 1;
    }
    assert(s@.take(i as int) =~= s@);
    Some(n)
}

/// A number without the plus that may stand before it.
pub open spec fn unplussed(v: Seq<u8>) -> Seq<u8> {
    if v.len() > 0 && v[0] == 0x2b {
        v.skip(1)
    } else {
        v
    }
}

/// What a `SCAP_LIST_THREADS` value asks for: a decimal number of threads a
/// walk may run, with or without a plus before it, or nothing usable.
pub open spec fn asked_threads(value: Option<Seq<u8>>) -> Option<nat> {
    match value {
        Some(v) => {
            let n = unplussed(v);
            if is_decimal(n) && 1 <= decimal_value(n) <= MAX_THREADS {
                Some(decimal_value(n))
            } else {
                None
            }
        },
        None => None,
    }
}

/// The number of threads that a value asks for, where it asks for one.
fn threads_of(v: &[u8]) -> (r: Option<usize>)
    ensures
        match r {
            Some(n) => asked_threads(Some(v@)) == Some(n as nat),
            None => asked_threads(Some(v@)) is None,
        },
{
    let digits = if v.len() > 0 && v[0] == 0x2b {
        slice_subrange(v, 1, v.len())
    } else {
        v
    };
    assert(digits@ =~= unplussed(v@));
    match parse_decimal(digits, MAX_THREADS as u64) {
        Some(n) => if n >= 1 {
            Some(n as usize)
        } else {
            None
        },
        None => None,
    }
}

/// Reads one `SCAP_LIST_THREADS` value. Unset, empty and malformed values all
/// resolve to [`DEFAULT_THREADS`].
pub fn parse_threads(value: Option<&[u8]>) -> (r: usize)
    ensures
        r == match asked_threads(
            match value {
                Some(v) => Some(v@),
                None => None,
            },
        ) {
            Some(n) => n,
            None => DEFAULT_THREADS as nat,
        },
{
    match value {
        Some(v) => match threads_of(v) {
            Some(n) => n,
            None => DEFAULT_THREADS,
        },
        None => DEFAULT_THREADS,
    }
}

/// Whether a `SCAP_LIST_THREADS` value is set to something that
/// [`parse_threads`] does not honour, which deserves a warning.
pub fn threads_rejected(value: Option<&[u8]>) -> (r: bool)
    ensures
        r == match value {
            Some(v) => v@.len() > 0 && asked_threads(Some(v@)) is None,
            None => false,
        },
{
    match value {
        Some(v) => v.len() > 0 && threads_of(v).is_none(),
        None => false,
    }
}

/// `open`, the spelling of [`DetectStrategy::OpenScan`].
pub const OPEN_WORD: [u8; 4] = [0x6f, 0x70, 0x65, 0x6e];

/// `stat`, the spelling of [`DetectStrategy::StatFirst`].
pub const STAT_WORD: [u8; 4] = [0x73, 0x74, 0x61, 0x74];

/// Reads one `SCAP_LIST_DETECT` value. Unset, empty and unrecognised values
/// all resolve to the default.
pub fn parse_detect_strategy(value: Option<&[u8]>) -> (r: DetectStrategy)
    ensures
        r is StatFirst <==> (value matches Some(v) && v@ == STAT_WORD@),
{
    match value {
        Some(v) => if crate::bytes::bytes_eq(v, STAT_WORD.as_slice()) {
            DetectStrategy::StatFirst
        } else {
            DetectStrategy::OpenScan
        },
        None => DetectStrategy::OpenScan,
    }
}

/// Whether a `SCAP_LIST_DETECT` value is set to neither of the two
/// spellings, which deserves a warning.
pub fn detect_rejected(value: Option<&[u8]>) -> (r: bool)
    ensures
        r == match value {
            Some(v) => v@.len() > 0 && v@ != OPEN_WORD@ && v@ != STAT_WORD@,
            None => false,
        },
{
    match value {
        Some(v) => v.len() > 0 && !crate::bytes::bytes_eq(v, OPEN_WORD.as_slice())
            && !crate::bytes::bytes_eq(v, STAT_WORD.as_slice()),
        None => false,
    }
}

/// How one root is to be walked.
#[derive(Debug)]
pub struct WalkOptions {
    /// Worker threads; a walk runs between 1 and 64.
    pub threads: usize,
    /// Subtrees to prune, matched against root-relative paths.
    pub exclude: Vec<Pattern>,
    /// Which `.git` detection strategy to use.
    pub detect: DetectStrategy,
    /// Whether to remember directories and repositories for the index.
    pub record: bool,
}

impl WalkOptions {
    /// Options for a walk on `threads` workers excluding `exclude`, with the
    /// strategy that the `SCAP_LIST_DETECT` value `detect` selects.
    pub fn new(threads: usize, exclude: Vec<Pattern>, detect: Option<&[u8]>) -> (r: Self)
        ensures
            r.threads == threads,
            r.exclude == exclude,
            r.detect is StatFirst <==> (detect matches Some(v) && v@ == STAT_WORD@),
            !r.record,
    {
        WalkOptions { threads, exclude, detect: parse_detect_strategy(detect), record: false }
    }

    /// The same options, recording or not.
    pub fn with_record(self, record: bool) -> (r: Self)
        ensures
            r == (WalkOptions { record, ..self }),
    {
        WalkOptions {
            threads: self.threads,
            exclude: self.exclude,
            detect: self.detect,
            record,
        }
    }
}

/// What one root's walk found. A root that is itself a repository yields the
/// single path `.`.
#[derive(Debug)]
pub struct RootListing {
    arena: Arena,
    dirs_read: usize,
    excluded: usize,
    records: Vec<Record>,
    incomplete: bool,
}

/// What a [`RootListing`] holds.
pub struct ListingView {
    pub repos: Seq<Seq<u8>>,
    pub dirs_read: usize,
    pub excluded: usize,
    pub records: Seq<RecordView>,
    pub incomplete: bool,
}

impl View for RootListing {
    type V = ListingView;

    closed spec fn view(&self) -> ListingView {
        ListingView {
            repos: self.arena@,
            dirs_read: self.dirs_read,
            excluded: self.excluded,
            records: record_views(self.records@),
            incomplete: self.incomplete,
        }
    }
}

/// The listing of a root that holds nothing.
pub open spec fn empty_listing() -> ListingView {
    ListingView {
        repos: Seq::empty(),
        dirs_read: 0,
        excluded: 0,
        records: Seq::empty(),
        incomplete: false,
    }
}

impl Default for RootListing {
    fn default() -> (r: Self)
        ensures
            r.wf(),
            r@ == empty_listing(),
    {
        let r = RootListing {
            arena: Arena::default(),
            dirs_read: 0,
            excluded: 0,
            records: Vec::new(),
            incomplete: false,
        };
        assert(r@.records =~= Seq::empty());
        r
    }
}

/// The repositories among records, as they are printed.
pub open spec fn recorded_repos(records: Seq<RecordView>) -> Seq<Seq<u8>>
    decreases records.len(),
{
    if records.len() == 0 {
        Seq::empty()
    } else {
        let rest = recorded_repos(records.drop_last());
        if records.last().mtime_ns is None {
            rest.push(printed(records.last().rel))
        } else {
            rest
        }
    }
}

/// The bytes that the printed repositories among records take up.
pub open spec fn recorded_size(records: Seq<RecordView>) -> nat
    decreases records.len(),
{
    if records.len() == 0 {
        0
    } else {
        recorded_size(records.drop_last()) + if records.last().mtime_ns is None {
            printed(records.last().rel).len()
        } else {
            0
        }
    }
}

proof fn lemma_recorded_size_grows(records: Seq<RecordView>, n: int)
    requires
        0 <= n <= records.len(),
    ensures
        recorded_size(records.take(n)) <= recorded_size(records),
    decreases records.len() - n,
{
    if n < records.len() {
        lemma_recorded_size_grows(records, n + 1);
        assert(records.take(n + 1).drop_last() =~= records.take(n));
    } else {
        assert(records.take(n) =~= records);
    }
}

impl RootListing {
    pub closed spec fn wf(&self) -> bool {
        self.arena.wf()
    }

    /// Every repository found, in walk order.
    pub fn repos(&self) -> (r: Vec<&[u8]>)
        requires
            self.wf(),
        ensures
            r@.len() == self@.repos.len(),
            forall|i: int| 0 <= i < r@.len() ==> (#[trigger] r@[i])@ == self@.repos[i],
    {
        self.arena.iter()
    }

    /// Number of repositories found.
    pub fn len(&self) -> (r: usize)
        ensures
            r == self@.repos.len(),
    {
        self.arena.len()
    }

    /// Whether the root held no repository at all.
    pub fn is_empty(&self) -> (r: bool)
        ensures
            r == (self@.repos.len() == 0),
    {
        self.arena.is_empty()
    }

    /// Directories whose entries were read.
    pub fn dirs_read(&self) -> (r: usize)
        ensures
            r == self@.dirs_read,
    {
        self.dirs_read
    }

    /// Directories that an exclusion pattern pruned.
    pub fn excluded(&self) -> (r: usize)
        ensures
            r == self@.excluded,
    {
        self.excluded
    }

    /// What the walk remembers for the index.
    pub fn records(&self) -> (r: &Vec<Record>)
        ensures
            record_views(r@) == self@.records,
    {
        &self.records
    }

    /// What the walk remembers for the index.
    pub fn into_records(self) -> (r: Vec<Record>)
        ensures
            record_views(r@) == self@.records,
    {
        self.records
    }

    /// Whether a directory that exists went unread, so that the listing may
    /// be short.
    pub fn incomplete(&self) -> (r: bool)
        ensures
            r == self@.incomplete,
    {
        self.incomplete
    }

    /// The listing of what the workers of a walk produced.
    pub fn from_out(out: Out) -> (r: Self)
        requires
            out.wf(),
        ensures
            r.wf(),
            r@ == (ListingView {
                repos: out.arena@,
                dirs_read: out.dirs_read,
                excluded: out.excluded,
                records: record_views(out.records@),
                incomplete: out.incomplete,
            }),
    {
        RootListing {
            arena: out.arena,
            dirs_read: out.dirs_read,
            excluded: out.excluded,
            records: out.records,
            incomplete: out.incomplete,
        }
    }

    /// The listing that records describe.
    pub fn from_records(
        records: Vec<Record>,
        dirs_read: usize,
        excluded: usize,
        incomplete: bool,
    ) -> (r: Self)
        requires
            recorded_size(record_views(records@)) <= u32::MAX,
        ensures
            r.wf(),
            r@ == (ListingView {
                repos: recorded_repos(record_views(records@)),
                dirs_read,
                excluded,
                records: record_views(records@),
                incomplete,
            }),
    {
        let ghost all = record_views(records@);
        let mut out = Out::default();
        let mut i: usize = 0;
        proof {
            assert(all.take(0) =~= Seq::empty());
            assert(out.arena@ =~= recorded_repos(all.take(0)));
        }
        while i < records.len()
            invariant
                i <= records@.len(),
                all == record_views(records@),
                out.wf(),
                recorded_size(all) <= u32::MAX,
                out.arena@ == recorded_repos(all.take(i as int)),
                out.arena.size() == recorded_size(all.take(i as int)),
            decreases records@.len() - i,
        {
            proof {
                assert(all.take(i + 1).drop_last() =~= all.take(i as int));
                assert(all.take(i + 1).last() == records@[i as int]@);
                lemma_recorded_size_grows(all, i + 1);
            }
            if records[i].mtime_ns().is_none() {
                out.emit(records[i].rel());
            }
            i += 1;
        }
        assert(all.take(i as int) =~= all);
        RootListing { arena: out.arena, dirs_read, excluded, records, incomplete }
    }
}

/// A failure that stops a root from being walked at all.
#[derive(Debug)]
pub enum WalkError {
    /// The root path holds a NUL byte, so it cannot become a C string.
    InvalidRoot { path: Vec<u8> },
}

impl WalkError {
    /// What the failure says of itself.
    pub open spec fn says(self) -> Seq<char> {
        match self {
            WalkError::InvalidRoot { path } => shown_path(path@)
                + ": root path contains an interior NUL byte"@,
        }
    }

    /// What the failure says of itself.
    pub fn message(&self) -> (r: String)
        ensures
            r@ == self.says(),
    {
        match self {
            WalkError::InvalidRoot { path } => lossy_text(path.as_slice()).concat(
                ": root path contains an interior NUL byte",
            ),
        }
    }
}

/// What is to be done with a root.
#[derive(Debug)]
pub enum RootStep {
    /// It holds nothing to walk: it does not exist, or is not a directory.
    Skip,
    /// It cannot be walked, which deserves a warning: it hides repositories
    /// that would otherwise be listed.
    Warn(Errno),
    /// It is a repository by its name alone, and is never opened.
    Listed(RootListing),
    /// Its entries are to be read.
    Read,
}

/// Whether a mode lets nobody read.
pub open spec fn unreadable_mode(mode: u32) -> bool {
    mode & 0o444 == 0
}

/// What a root's `stat` makes of it.
pub open spec fn root_fate(stat: Result<u32, Errno>) -> Option<Result<(), Errno>> {
    match stat {
        Err(e) => if e is NOENT {
            None
        } else {
            Some(Err(e))
        },
        Ok(mode) => if !(type_of_mode(mode) is Directory) {
            None
        } else if unreadable_mode(mode) {
            Some(Err(Errno::ACCESS))
        } else {
            Some(Ok(()))
        },
    }
}

/// Whether this root is worth reading, by its `stat` (the mode, or why there
/// is none): `None` when it is to be skipped in silence, the error to warn
/// about when it cannot be used.
pub fn root_is_walkable(stat: Result<u32, Errno>) -> (r: Option<Result<(), Errno>>)
    ensures
        r == root_fate(stat),
{
    match stat {
        Err(e) => match e {
            Errno::NOENT => None,
            _ => Some(Err(e)),
        },
        Ok(mode) => match Kind::from_raw_mode(mode) {
            Kind::Dir => if mode & 0o444 == 0 {
                Some(Err(Errno::ACCESS))
            } else {
                Some(Ok(()))
            },
            _ => None,
        },
    }
}

/// The warning about a root that cannot be walked, `said` being what the
/// system says of that.
pub fn warn_unwalkable_root(root: &[u8], err: Errno, said: &str) -> (r: String)
    ensures
        r@ == path_text(root@) + ": "@ + (if is_denied(err) {
            "Permission denied"@
        } else {
            said@
        }),
{
    let path = path_str(root).concat(": ");
    match err {
        Errno::ACCESS | Errno::PERM => path.concat("Permission denied"),
        _ => path.concat(said),
    }
}

/// Whether the root is a repository by its name alone.
pub open spec fn is_bare_root(root: Seq<u8>) -> bool {
    last_name(root) matches Some(name) && is_git_name(name)
}

/// Decides what is to be done with `root`, given its `stat`.
///
/// Only a path that cannot be asked about is an error. A missing root and one
/// that is not a directory are skipped in silence, an unusable one with a
/// warning, and one whose name ends in `.git` is listed as `.` unopened.
pub fn walk_root(root: &[u8], stat: Result<u32, Errno>, record: bool) -> (r: Result<
    RootStep,
    WalkError,
>)
    ensures
        match r {
            Err(WalkError::InvalidRoot { path }) => root@.contains(0) && path@ == root@,
            Ok(step) => !root@.contains(0) && match step {
                RootStep::Skip => root_fate(stat) is None,
                RootStep::Warn(e) => root_fate(stat) == Some(Err::<(), Errno>(e)),
                RootStep::Listed(listing) => {
                    &&& root_fate(stat) == Some(Ok::<(), Errno>(()))
                    &&& is_bare_root(root@)
                    &&& listing.wf()
                    &&& listing@ == (ListingView {
                        repos: seq![printed(Seq::empty())],
                        records: if record {
                            seq![RecordView { rel: Seq::empty(), mtime_ns: None }]
                        } else {
                            Seq::empty()
                        },
                        ..empty_listing()
                    })
                },
                RootStep::Read => root_fate(stat) == Some(Ok::<(), Errno>(())) && !is_bare_root(
                    root@,
                ),
            },
        },
{
    if find_byte(0, root).is_some() {
        return Err(WalkError::InvalidRoot { path: slice_to_vec(root) });
    }
    match root_is_walkable(stat) {
        None => return Ok(RootStep::Skip),
        Some(Err(e)) => return Ok(RootStep::Warn(e)),
        Some(Ok(())) => {},
    }
    let bare = match file_name(root) {
        Some(name) => ends_with(name.as_slice(), GIT_NAME.as_slice()),
        None => false,
    };
    if bare {
        let mut out = Out::default();
        out.record = record;
        let empty: Vec<u8> = Vec::new();
        assert(empty@ =~= Seq::empty());
        assert(record_views(out.records@) =~= Seq::empty());
        out.emit(empty.as_slice());
        let listing = RootListing::from_out(out);
        assert(listing@.repos =~= seq![printed(Seq::empty())]);
        return Ok(RootStep::Listed(listing));
    }
    Ok(RootStep::Read)
}

/// Whether the walk may open one more directory, with `live` of them already
/// waiting in the queue.
pub fn may_open(live: usize, cap: usize) -> (r: bool)
    ensures
        r == (live < cap),
{
    live < cap
}

/// Directory handles the work queue may hold before queued directories carry
/// a path instead.
pub const FD_CAP: usize = 4096;

/// A modification time in nanoseconds, saturating at the ends of the range.
pub open spec fn mtime_of(sec: i64, nsec: i64) -> int {
    let ns = sec * 1_000_000_000 + nsec;
    if ns > i64::MAX {
        i64::MAX as int
    } else if ns < i64::MIN {
        i64::MIN as int
    } else {
        ns
    }
}

/// A modification time in nanoseconds since the Unix epoch.
pub fn mtime_ns(sec: i64, nsec: i64) -> (r: i64)
    ensures
        r == mtime_of(sec, nsec),
{
    let ns: i128 = (sec as i128) * 1_000_000_000 + nsec as i128;
    if ns > i64::MAX as i128 {
        i64::MAX
    } else if ns < i64::MIN as i128 {
        i64::MIN
    } else {
        ns as i64
    }
}

} // verus!
