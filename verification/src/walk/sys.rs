//! The directory reader: what the entries of one directory mean.
//!
//! Every entry rule lives here. A [`Scan`] decides what one directory holds
//! by asking, one question at a time, for the `stat`s and opens it needs;
//! whoever drives it performs them and hands back the answers. Nothing else
//! decides what a repository is, so threads can only change *when*
//! directories are read, never *what* the walk concludes about them.

use vstd::prelude::*;
use vstd::slice::{slice_subrange, slice_to_vec};

use super::arena::Arena;
use super::{excluded_by, is_excluded, record_views, DetectStrategy, Pattern, Record, RecordView};
use crate::bytes::{bytes_eq, ends_with, has_suffix, push_all, DOT, SLASH};
use crate::text::{lossy_text, shown_path};

verus! {

/// `.git`, the name that makes a directory a repository.
pub const GIT_NAME: [u8; 4] = [0x2e, 0x67, 0x69, 0x74];

/// A file type as the filesystem reports it.
#[derive(Clone, Copy, PartialEq, Eq, Structural, Debug)]
pub enum FileType {
    RegularFile,
    Directory,
    Symlink,
    Fifo,
    Socket,
    CharacterDevice,
    BlockDevice,
    Unknown,
}

/// The file type that the format bits of a `stat` mode name.
pub open spec fn type_of_mode(mode: u32) -> FileType {
    if mode & 0o170000 == 0o100000 {
        FileType::RegularFile
    } else if mode & 0o170000 == 0o040000 {
        FileType::Directory
    } else if mode & 0o170000 == 0o120000 {
        FileType::Symlink
    } else if mode & 0o170000 == 0o010000 {
        FileType::Fifo
    } else if mode & 0o170000 == 0o140000 {
        FileType::Socket
    } else if mode & 0o170000 == 0o020000 {
        FileType::CharacterDevice
    } else if mode & 0o170000 == 0o060000 {
        FileType::BlockDevice
    } else {
        FileType::Unknown
    }
}

/// The file type in a `stat` mode.
///
/// Calls `rustix::fs::FileType::from_raw_mode`, which compares the format
/// bits of the mode with the platform's constants and answers `Unknown` when
/// none is equal.
#[verifier::external_body]
fn raw_mode_type(mode: u32) -> (r: FileType)
    ensures
        r == type_of_mode(mode),
{
    match rustix::fs::FileType::from_raw_mode(mode) {
        rustix::fs::FileType::RegularFile => FileType::RegularFile,
        rustix::fs::FileType::Directory => FileType::Directory,
        rustix::fs::FileType::Symlink => FileType::Symlink,
        rustix::fs::FileType::Fifo => FileType::Fifo,
        rustix::fs::FileType::Socket => FileType::Socket,
        rustix::fs::FileType::CharacterDevice => FileType::CharacterDevice,
        rustix::fs::FileType::BlockDevice => FileType::BlockDevice,
        rustix::fs::FileType::Unknown => FileType::Unknown,
    }
}

/// What one `readdir` entry, or one `stat`, turned out to be.
#[derive(Clone, Copy, PartialEq, Eq, Structural, Debug)]
pub enum Kind {
    Dir,
    Symlink,
    /// Anything else that has a type: a regular file, a gitfile, a device.
    Other,
    /// The filesystem did not report a type, so classifying this entry costs
    /// one `stat`.
    Unknown,
}

/// The kind of a file type.
pub open spec fn kind_of(t: FileType) -> Kind {
    match t {
        FileType::Directory => Kind::Dir,
        FileType::Symlink => Kind::Symlink,
        FileType::Unknown => Kind::Unknown,
        _ => Kind::Other,
    }
}

impl Kind {
    /// Maps a file type onto the cases the walk distinguishes. Only a
    /// genuinely untyped entry becomes [`Kind::Unknown`].
    pub fn from_file_type(file_type: FileType) -> (r: Self)
        ensures
            r == kind_of(file_type),
    {
        match file_type {
            FileType::Directory => Kind::Dir,
            FileType::Symlink => Kind::Symlink,
            FileType::Unknown => Kind::Unknown,
            _ => Kind::Other,
        }
    }

    /// The kind that a `stat` mode stands for.
    pub fn from_raw_mode(mode: u32) -> (r: Self)
        ensures
            r == kind_of(type_of_mode(mode)),
    {
        Kind::from_file_type(raw_mode_type(mode))
    }
}

/// Why a system call failed, as far as the walk tells failures apart.
#[derive(Clone, Copy, PartialEq, Eq, Structural, Debug)]
pub enum Errno {
    NOENT,
    NOTDIR,
    LOOP,
    ACCESS,
    PERM,
    MFILE,
    NFILE,
    IO,
    OTHER,
}

/// Whether a failure leaves a subtree that exists unread.
pub open spec fn shortens(err: Errno) -> bool {
    !(err is NOENT || err is NOTDIR || err is LOOP)
}

/// Whether a failed read shortened the listing: the path is there, and what
/// lies below it went unseen.
pub fn drops_a_subtree(err: Errno) -> (r: bool)
    ensures
        r == shortens(err),
{
    match err {
        Errno::NOENT | Errno::NOTDIR | Errno::LOOP => false,
        _ => true,
    }
}

/// Whether a failure is the process running out of descriptors.
pub open spec fn out_of_descriptors(err: Errno) -> bool {
    err is MFILE || err is NFILE
}

/// Whether a failure is a refused permission.
pub open spec fn is_denied(err: Errno) -> bool {
    err is ACCESS || err is PERM
}

/// Where one entry's name lies in the buffer, and its kind.
#[derive(Clone, Copy, Debug)]
struct Ent {
    off: u32,
    len: u32,
    kind: Kind,
}

/// One directory's entries, in a buffer reused for every directory a worker
/// reads. `.` and `..` are dropped on the way in.
#[derive(Debug)]
pub struct EntryBuf {
    names: Vec<u8>,
    ents: Vec<Ent>,
}

/// One directory entry.
pub struct EntView {
    pub name: Seq<u8>,
    pub kind: Kind,
}

impl View for EntryBuf {
    type V = Seq<EntView>;

    closed spec fn view(&self) -> Seq<EntView> {
        Seq::new(
            self.ents@.len(),
            |i: int|
                EntView {
                    name: self.names@.subrange(
                        self.ents@[i].off as int,
                        self.ents@[i].off + self.ents@[i].len as int,
                    ),
                    kind: self.ents@[i].kind,
                },
        )
    }
}

impl Default for EntryBuf {
    fn default() -> (r: Self)
        ensures
            r.wf(),
            r@ == Seq::<EntView>::empty(),
            r.size() == 0,
    {
        let r = EntryBuf { names: Vec::new(), ents: Vec::new() };
        assert(r@ =~= Seq::<EntView>::empty());
        r
    }
}

/// Whether a name is one of the two that every directory holds.
pub open spec fn is_dots(name: Seq<u8>) -> bool {
    name == seq![DOT] || name == seq![DOT, DOT]
}

impl EntryBuf {
    /// Whether every name lies inside the buffer and none is `.` or `..`.
    pub closed spec fn wf(&self) -> bool {
        &&& self.names@.len() <= u32::MAX
        &&& forall|i: int|
            0 <= i < self.ents@.len() ==> (#[trigger] self.ents@[i]).off + self.ents@[i].len
                <= self.names@.len()
        &&& forall|i: int| 0 <= i < self@.len() ==> !is_dots(#[trigger] self@[i].name)
    }

    /// How many bytes of names are held. Offsets have 32 bits, so this is
    /// what bounds one directory.
    pub closed spec fn size(&self) -> nat {
        self.names@.len()
    }

    /// Drops every entry, keeping the buffers for the next directory.
    pub fn clear(&mut self)
        ensures
            final(self).wf(),
            final(self)@ == Seq::<EntView>::empty(),
            final(self).size() == 0,
    {
        self.names.clear();
        self.ents.clear();
        assert(self@ =~= Seq::<EntView>::empty());
    }

    /// Appends one entry, skipping `.` and `..`.
    pub fn push(&mut self, name: &[u8], kind: Kind)
        requires
            old(self).wf(),
            old(self).size() + name@.len() <= u32::MAX,
        ensures
            final(self).wf(),
            is_dots(name@) ==> *final(self) == *old(self),
            !is_dots(name@) ==> {
                &&& final(self)@ == old(self)@.push(EntView { name: name@, kind })
                &&& final(self).size() == old(self).size() + name@.len()
            },
    {
        let dots = (name.len() == 1 && name[0] == DOT) || (name.len() == 2 && name[0] == DOT
            && name[1] == DOT);
        assert(dots == (name@ =~= seq![DOT] || name@ =~= seq![DOT, DOT]));
        if dots {
            return;
        }
        let off = self.names.len() as u32;
        let len = name.len() as u32;
        push_all(&mut self.names, name);
        self.ents.push(Ent { off, len, kind });
        proof {
            assert(self.names@.subrange(off as int, off + len as int) =~= name@);
            assert forall|i: int| 0 <= i < old(self)@.len() implies #[trigger] self@[i]
                == old(self)@[i] by {
                let e = old(self).ents@[i];
                assert(self.ents@[i] == e);
                assert(self.names@.subrange(e.off as int, e.off + e.len as int)
                    =~= old(self).names@.subrange(e.off as int, e.off + e.len as int));
            }
            assert(self@ =~= old(self)@.push(EntView { name: name@, kind }));
        }
    }

    /// Number of entries held, `.` and `..` excluded.
    pub fn len(&self) -> (r: usize)
        ensures
            r == self@.len(),
    {
        self.ents.len()
    }

    /// The `i`th entry's name.
    pub fn name(&self, i: usize) -> (r: &[u8])
        requires
            self.wf(),
            i < self@.len(),
        ensures
            r@ == self@[i as int].name,
    {
        let ent = self.ents[i];
        slice_subrange(self.names.as_slice(), ent.off as usize, (ent.off + ent.len) as usize)
    }

    /// The `i`th entry's type as `readdir` reported it.
    pub fn kind(&self, i: usize) -> (r: Kind)
        requires
            self.wf(),
            i < self@.len(),
        ensures
            r == self@[i as int].kind,
    {
        self.ents[i].kind
    }
}

/// The path of `name` below `rel`; the root's own path is empty.
pub open spec fn below(rel: Seq<u8>, name: Seq<u8>) -> Seq<u8> {
    if rel.len() == 0 {
        name
    } else {
        rel.push(SLASH) + name
    }
}

/// Joins `rel` and `name` into `sink`, which is cleared first.
pub fn join_rel(sink: &mut Vec<u8>, rel: &[u8], name: &[u8])
    ensures
        final(sink)@ == below(rel@, name@),
{
    sink.clear();
    if rel.len() != 0 {
        push_all(sink, rel);
        sink.push(SLASH);
    }
    push_all(sink, name);
    assert(sink@ =~= below(rel@, name@));
}

/// A path below a root as a message shows it.
pub open spec fn shown_below(root: Seq<u8>, rel: Seq<u8>) -> Seq<char> {
    if rel.len() == 0 {
        shown_path(root)
    } else {
        shown_path(root) + "/"@ + shown_path(rel)
    }
}

/// A path below a root as a message shows it: with the root, for it tells
/// which of them the message is about.
pub fn abs(root: &[u8], rel: &[u8]) -> (r: String)
    ensures
        r@ == shown_below(root@, rel@),
{
    let path = lossy_text(root);
    if rel.len() == 0 {
        path
    } else {
        path.concat("/").concat(lossy_text(rel).as_str())
    }
}

/// The warning about a directory that could not be read; none unless it was
/// refused, for everything else is of no use to whoever asked for a listing.
pub fn report_io_error(root: &[u8], rel: &[u8], err: Errno) -> (r: Option<String>)
    ensures
        match r {
            Some(says) => is_denied(err) && says@ == shown_below(root@, rel@)
                + ": Permission denied"@,
            None => !is_denied(err),
        },
{
    match err {
        Errno::ACCESS | Errno::PERM => Some(abs(root, rel).concat(": Permission denied")),
        _ => None,
    }
}

/// The warning about a directory that was queued by its path and could not be
/// opened again, `said` being what the system says of that: where the process
/// has no handle left the subtree is lost, which must not happen in silence.
pub fn report_reopen_error(root: &[u8], rel: &[u8], err: Errno, said: &str) -> (r: Option<String>)
    ensures
        match r {
            Some(says) => if err is MFILE || err is NFILE {
                says@ == shown_below(root@, rel@) + ": "@ + said@ + "; subtree skipped"@
            } else {
                is_denied(err) && says@ == shown_below(root@, rel@) + ": Permission denied"@
            },
            None => !(err is MFILE || err is NFILE) && !is_denied(err),
        },
{
    match err {
        Errno::MFILE | Errno::NFILE => Some(
            abs(root, rel).concat(": ").concat(said).concat("; subtree skipped"),
        ),
        _ => report_io_error(root, rel, err),
    }
}

/// Whether a name ends in `.git`.
pub open spec fn is_git_name(name: Seq<u8>) -> bool {
    has_suffix(name, GIT_NAME@)
}

/// What the system answers about one directory entry.
pub struct EntryFacts {
    /// Its kind without following a link, or `None` when that `stat` failed.
    pub lstat: Option<Kind>,
    /// Whether `<entry>/.git` can be `stat`ed, following links.
    pub git: bool,
    /// Whether the entry, followed, is a directory.
    pub target: Result<bool, Errno>,
    /// What opening it as a directory gives.
    pub open: Opened,
}

/// What came of opening a child directory.
#[derive(Clone, Copy, PartialEq, Eq, Debug)]
pub enum Opened {
    /// It is open; whoever opened it knows it by this number.
    Handle(usize),
    /// The budget for open directories is used up; it was not opened.
    OverBudget,
    Failed(Errno),
}

/// What the system answers about one directory.
pub struct DirFacts {
    /// Whether its `.git` can be `stat`ed, following links.
    pub git: bool,
    pub entries: Seq<EntryFacts>,
}

/// What one entry means for the walk.
#[derive(Clone, Copy, PartialEq, Eq, Debug)]
pub enum Verdict {
    Nothing,
    /// A repository.
    Repo,
    /// Pruned by an exclusion pattern.
    Excluded,
    /// A directory to read, with the number of its open handle if it has one.
    Queue(Option<usize>),
    /// A directory that could not be opened.
    Unread(Errno),
    /// A link that could not be followed.
    Unresolved(Errno),
}

/// The two things a walk is told about what counts.
pub struct Rules {
    pub exclude: Vec<Pattern>,
    pub detect: DetectStrategy,
}

/// What opening a child directory decides.
pub open spec fn open_verdict(facts: EntryFacts) -> Verdict {
    match facts.open {
        Opened::Handle(h) => Verdict::Queue(Some(h)),
        Opened::OverBudget => Verdict::Queue(None),
        Opened::Failed(e) => if out_of_descriptors(e) {
            Verdict::Queue(None)
        } else if is_denied(e) && facts.git {
            Verdict::Repo
        } else {
            Verdict::Unread(e)
        },
    }
}

/// What a child directory means.
///
/// Exclusion comes first, so an excluded subtree costs neither a `stat` nor
/// an open. A name ending in `.git` is a repository and is never opened. A
/// directory that may be searched but not read is a repository when its
/// `.git` can be `stat`ed.
pub open spec fn dir_verdict(
    name: Seq<u8>,
    path: Seq<u8>,
    rules: Rules,
    facts: EntryFacts,
) -> Verdict {
    if excluded_by(rules.exclude@, path) {
        Verdict::Excluded
    } else if is_git_name(name) {
        Verdict::Repo
    } else if rules.detect is StatFirst && facts.git {
        Verdict::Repo
    } else {
        open_verdict(facts)
    }
}

/// What a symbolic link means: it is never descended, but it is a repository
/// under its own name when it leads to one.
pub open spec fn link_verdict(
    name: Seq<u8>,
    path: Seq<u8>,
    rules: Rules,
    facts: EntryFacts,
) -> Verdict {
    if excluded_by(rules.exclude@, path) {
        Verdict::Excluded
    } else {
        match facts.target {
            Err(e) => Verdict::Unresolved(e),
            Ok(is_dir) => if is_dir && (is_git_name(name) || facts.git) {
                Verdict::Repo
            } else {
                Verdict::Nothing
            },
        }
    }
}

/// What an entry of a known kind means.
pub open spec fn kind_verdict(
    kind: Kind,
    name: Seq<u8>,
    path: Seq<u8>,
    rules: Rules,
    facts: EntryFacts,
) -> Verdict {
    match kind {
        Kind::Dir => dir_verdict(name, path, rules, facts),
        Kind::Symlink => link_verdict(name, path, rules, facts),
        _ => Verdict::Nothing,
    }
}

/// What an entry means; an untyped one is classified by its `stat` first.
pub open spec fn verdict(ent: EntView, path: Seq<u8>, rules: Rules, facts: EntryFacts) -> Verdict {
    if ent.kind is Unknown {
        match facts.lstat {
            None => Verdict::Nothing,
            Some(kind) => kind_verdict(kind, ent.name, path, rules, facts),
        }
    } else {
        kind_verdict(ent.kind, ent.name, path, rules, facts)
    }
}

/// What a directory read gave rise to.
#[derive(Debug)]
pub enum Event {
    Repo(Vec<u8>),
    Excluded(Vec<u8>),
    Queue(Vec<u8>, Option<usize>),
    Unread(Vec<u8>, Errno),
    Unresolved(Vec<u8>, Errno),
}

/// What an [`Event`] says.
pub enum EventView {
    Repo(Seq<u8>),
    Excluded(Seq<u8>),
    Queue(Seq<u8>, Option<usize>),
    Unread(Seq<u8>, Errno),
    Unresolved(Seq<u8>, Errno),
}

impl View for Event {
    type V = EventView;

    open spec fn view(&self) -> EventView {
        match self {
            Event::Repo(p) => EventView::Repo(p@),
            Event::Excluded(p) => EventView::Excluded(p@),
            Event::Queue(p, h) => EventView::Queue(p@, *h),
            Event::Unread(p, e) => EventView::Unread(p@, *e),
            Event::Unresolved(p, e) => EventView::Unresolved(p@, *e),
        }
    }
}

/// What a list of events says.
pub open spec fn event_views(v: Seq<Event>) -> Seq<EventView> {
    Seq::new(v.len(), |i: int| v[i]@)
}

/// The event a verdict on `path` gives rise to.
pub open spec fn event_of(path: Seq<u8>, v: Verdict) -> Seq<EventView> {
    match v {
        Verdict::Nothing => Seq::empty(),
        Verdict::Repo => seq![EventView::Repo(path)],
        Verdict::Excluded => seq![EventView::Excluded(path)],
        Verdict::Queue(h) => seq![EventView::Queue(path, h)],
        Verdict::Unread(e) => seq![EventView::Unread(path, e)],
        Verdict::Unresolved(e) => seq![EventView::Unresolved(path, e)],
    }
}

/// The events of the entries from number `i` on.
pub open spec fn entry_events(
    rel: Seq<u8>,
    ents: Seq<EntView>,
    rules: Rules,
    facts: DirFacts,
    i: int,
) -> Seq<EventView>
    decreases ents.len() - i,
{
    if i >= ents.len() {
        Seq::empty()
    } else {
        let path = below(rel, ents[i].name);
        event_of(path, verdict(ents[i], path, rules, facts.entries[i])) + entry_events(
            rel,
            ents,
            rules,
            facts,
            i + 1,
        )
    }
}

/// Whether the first entry named `.git`, from number `i` on, makes the
/// directory a repository. One the filesystem could type is enough by
/// itself; a link or an untyped one has to be `stat`ed.
pub open spec fn holds_git(ents: Seq<EntView>, git: bool, i: int) -> bool
    decreases ents.len() - i,
{
    if i >= ents.len() {
        false
    } else if ents[i].name == GIT_NAME@ {
        if ents[i].kind is Symlink || ents[i].kind is Unknown {
            git
        } else {
            true
        }
    } else {
        holds_git(ents, git, i + 1)
    }
}

/// What a directory's entries give rise to.
///
/// The whole entry list decides whether the directory is a repository before
/// any child counts, so nothing inside a repository is ever reached.
pub open spec fn dir_events(
    rel: Seq<u8>,
    ents: Seq<EntView>,
    rules: Rules,
    facts: DirFacts,
) -> Seq<EventView> {
    if holds_git(ents, facts.git, 0) {
        seq![EventView::Repo(rel)]
    } else {
        entry_events(rel, ents, rules, facts, 0)
    }
}

/// What has to be asked of the system next.
#[derive(Clone, Copy, PartialEq, Eq, Debug)]
pub enum Request {
    /// `stat` the directory's own `.git`, following links.
    StatGit,
    /// `stat` the entry without following links.
    Lstat(usize),
    /// `stat` `<entry>/.git`, following links.
    StatEntryGit(usize),
    /// `stat` the entry, following links.
    StatTarget(usize),
    /// Open the entry as a directory.
    Open(usize),
    /// Nothing: the directory is settled.
    Done,
}

/// The questions that opening the entry number `i` takes: a directory that may
/// not be read is asked for its `.git`.
pub open spec fn open_questions(facts: EntryFacts, i: int) -> Seq<Request> {
    if facts.open matches Opened::Failed(e) && is_denied(e) {
        seq![Request::Open(i as usize), Request::StatEntryGit(i as usize)]
    } else {
        seq![Request::Open(i as usize)]
    }
}

/// The questions that following the link number `i` takes: one that leads to a
/// directory is asked for its `.git`, unless its name says what it is.
pub open spec fn target_questions(name: Seq<u8>, facts: EntryFacts, i: int) -> Seq<Request> {
    if facts.target == Ok::<bool, Errno>(true) && !is_git_name(name) {
        seq![Request::StatTarget(i as usize), Request::StatEntryGit(i as usize)]
    } else {
        seq![Request::StatTarget(i as usize)]
    }
}

/// The questions that the entry number `i` takes once its kind is known: none
/// where it is excluded, nor where a directory's name ends in `.git`.
pub open spec fn kind_questions(
    kind: Kind,
    name: Seq<u8>,
    path: Seq<u8>,
    rules: Rules,
    facts: EntryFacts,
    i: int,
) -> Seq<Request> {
    if !(kind is Dir || kind is Symlink) || excluded_by(rules.exclude@, path) {
        Seq::empty()
    } else if kind is Symlink {
        target_questions(name, facts, i)
    } else if is_git_name(name) {
        Seq::empty()
    } else if rules.detect is StatFirst {
        seq![Request::StatEntryGit(i as usize)] + (if facts.git {
            Seq::empty()
        } else {
            open_questions(facts, i)
        })
    } else {
        open_questions(facts, i)
    }
}

/// The questions that the entry number `i` takes.
pub open spec fn questions(
    ent: EntView,
    path: Seq<u8>,
    rules: Rules,
    facts: EntryFacts,
    i: int,
) -> Seq<Request> {
    if ent.kind is Unknown {
        seq![Request::Lstat(i as usize)] + (match facts.lstat {
            None => Seq::empty(),
            Some(kind) => kind_questions(kind, ent.name, path, rules, facts, i),
        })
    } else {
        kind_questions(ent.kind, ent.name, path, rules, facts, i)
    }
}

/// The questions that the entries from number `i` on take.
pub open spec fn entry_questions(
    rel: Seq<u8>,
    ents: Seq<EntView>,
    rules: Rules,
    facts: DirFacts,
    i: int,
) -> Seq<Request>
    decreases ents.len() - i,
{
    if i >= ents.len() {
        Seq::empty()
    } else {
        questions(ents[i], below(rel, ents[i].name), rules, facts.entries[i], i) + entry_questions(
            rel,
            ents,
            rules,
            facts,
            i + 1,
        )
    }
}

/// The questions that a directory takes, in order: its own `.git` where the
/// entries leave that open, and nothing of the entries where it is a
/// repository.
pub open spec fn dir_questions(
    rel: Seq<u8>,
    ents: Seq<EntView>,
    rules: Rules,
    facts: DirFacts,
) -> Seq<Request> {
    let own = if holds_git(ents, true, 0) && !holds_git(ents, false, 0) {
        seq![Request::StatGit]
    } else {
        Seq::empty()
    };
    own + (if holds_git(ents, facts.git, 0) {
        Seq::empty()
    } else {
        entry_questions(rel, ents, rules, facts, 0)
    })
}

/// The entry that a question is about.
pub open spec fn entry_of(request: Request) -> Option<usize> {
    match request {
        Request::Lstat(i) => Some(i),
        Request::StatEntryGit(i) => Some(i),
        Request::StatTarget(i) => Some(i),
        Request::Open(i) => Some(i),
        _ => None,
    }
}

/// Whether a question is about one of the entries, and one that it can be
/// asked of: a directory's, a link's, or one whose type is not known.
pub open spec fn is_apt(request: Request, ents: Seq<EntView>) -> bool {
    &&& entry_of(request) matches Some(i) ==> i < ents.len()
    &&& match request {
        Request::Lstat(i) => ents[i as int].kind is Unknown,
        Request::StatTarget(i) => ents[i as int].kind is Symlink || ents[i as int].kind is Unknown,
        Request::StatEntryGit(i) => !(ents[i as int].kind is Other) && !is_git_name(
            ents[i as int].name,
        ),
        Request::Open(i) => (ents[i as int].kind is Dir || ents[i as int].kind is Unknown)
            && !is_git_name(ents[i as int].name),
        _ => true,
    }
}

/// Whether a question respects the exclusions: an entry that is excluded is
/// asked at most for its type.
pub open spec fn is_permitted(
    request: Request,
    rel: Seq<u8>,
    ents: Seq<EntView>,
    exclude: Seq<Pattern>,
) -> bool {
    request is Lstat || (entry_of(request) matches Some(i) ==> !excluded_by(
        exclude,
        below(rel, ents[i as int].name),
    ))
}

/// An excluded subtree costs neither a `stat` of what it holds nor an open,
/// and a directory whose name ends in `.git` is never opened: that holds of
/// every question that a directory takes, whatever the answers.
pub proof fn law_questions_respect_exclusions(
    rel: Seq<u8>,
    ents: Seq<EntView>,
    rules: Rules,
    facts: DirFacts,
    k: int,
)
    requires
        ents.len() <= usize::MAX,
        0 <= k < dir_questions(rel, ents, rules, facts).len(),
    ensures
        is_apt(dir_questions(rel, ents, rules, facts)[k], ents),
        is_permitted(dir_questions(rel, ents, rules, facts)[k], rel, ents, rules.exclude@),
{
    let all = dir_questions(rel, ents, rules, facts);
    if !(all[k] is StatGit) {
        let own: int = if holds_git(ents, true, 0) && !holds_git(ents, false, 0) {
            1
        } else {
            0
        };
        assert(all[k] == entry_questions(rel, ents, rules, facts, 0)[k - own]);
        lemma_entry_questions(rel, ents, rules, facts, 0, k - own);
    }
}

proof fn lemma_entry_questions(
    rel: Seq<u8>,
    ents: Seq<EntView>,
    rules: Rules,
    facts: DirFacts,
    from: int,
    k: int,
)
    requires
        ents.len() <= usize::MAX,
        0 <= from <= ents.len(),
        0 <= k < entry_questions(rel, ents, rules, facts, from).len(),
    ensures
        is_apt(entry_questions(rel, ents, rules, facts, from)[k], ents),
        is_permitted(
            entry_questions(rel, ents, rules, facts, from)[k],
            rel,
            ents,
            rules.exclude@,
        ),
    decreases ents.len() - from,
{
    let here = questions(ents[from], below(rel, ents[from].name), rules, facts.entries[from], from);
    let all = entry_questions(rel, ents, rules, facts, from);
    if k < here.len() {
        assert(all[k] == here[k]);
    } else {
        let rest = entry_questions(rel, ents, rules, facts, from + 1);
        assert(all[k] == rest[k - here.len()]);
        lemma_entry_questions(rel, ents, rules, facts, from + 1, k - here.len());
    }
}

/// The answer to a [`Request`].
#[derive(Clone, Copy, PartialEq, Eq, Debug)]
pub enum Reply {
    /// Whether the `stat` of a `.git` succeeded.
    Git(bool),
    /// The kind of the entry, or `None` when the `stat` failed.
    Lstat(Option<Kind>),
    /// Whether the target is a directory.
    Target(Result<bool, Errno>),
    Open(Opened),
}

/// What the scan is waiting for.
#[derive(Clone, Copy, PartialEq, Eq, Debug)]
enum Phase {
    OwnGit,
    Lstat,
    GitFirst,
    Open,
    DeniedGit(Errno),
    Target,
    TargetGit,
    Done,
}

/// One directory being decided.
#[derive(Debug)]
pub struct Scan {
    rel: Vec<u8>,
    buf: EntryBuf,
    at: usize,
    phase: Phase,
    events: Vec<Event>,
}

/// Whether `reply` is an answer to `request`.
pub open spec fn answers(request: Request, reply: Reply) -> bool {
    match request {
        Request::StatGit => reply is Git,
        Request::Lstat(_) => reply is Lstat,
        Request::StatEntryGit(_) => reply is Git,
        Request::StatTarget(_) => reply is Target,
        Request::Open(_) => reply is Open,
        Request::Done => false,
    }
}

/// Whether `reply` to `request` is what `facts` say.
pub open spec fn agrees(request: Request, reply: Reply, facts: DirFacts) -> bool {
    match (request, reply) {
        (Request::StatGit, Reply::Git(ok)) => facts.git == ok,
        (Request::Lstat(i), Reply::Lstat(kind)) => facts.entries[i as int].lstat == kind,
        (Request::StatEntryGit(i), Reply::Git(ok)) => facts.entries[i as int].git == ok,
        (Request::StatTarget(i), Reply::Target(t)) => facts.entries[i as int].target == t,
        (Request::Open(i), Reply::Open(o)) => facts.entries[i as int].open == o,
        _ => false,
    }
}

impl Scan {
    /// Whether the scan stands at one of its entries.
    pub closed spec fn wf(&self) -> bool {
        &&& self.buf.wf()
        &&& self.at <= self.buf@.len()
        &&& !(self.phase is Done || self.phase is OwnGit) ==> self.at < self.buf@.len()
        &&& self.phase is OwnGit ==> self.at == 0 && self.events@.len() == 0
        &&& self.at < self.buf@.len() ==> self.is_at(self.buf@[self.at as int])
    }

    /// Whether the present entry is one that the scan can be waiting for so.
    spec fn is_at(&self, ent: EntView) -> bool {
        match self.phase {
            Phase::Lstat => ent.kind is Unknown,
            Phase::GitFirst | Phase::Open | Phase::DeniedGit(_) => (ent.kind is Dir || ent.kind
                is Unknown) && !is_git_name(ent.name),
            Phase::Target => ent.kind is Symlink || ent.kind is Unknown,
            Phase::TargetGit => (ent.kind is Symlink || ent.kind is Unknown) && !is_git_name(
                ent.name,
            ),
            _ => true,
        }
    }

    /// The directory being decided.
    pub closed spec fn dir(&self) -> Seq<u8> {
        self.rel@
    }

    /// Its entries.
    pub closed spec fn ents(&self) -> Seq<EntView> {
        self.buf@
    }

    /// What has to be asked next.
    pub closed spec fn request(&self) -> Request {
        match self.phase {
            Phase::OwnGit => Request::StatGit,
            Phase::Lstat => Request::Lstat(self.at),
            Phase::GitFirst => Request::StatEntryGit(self.at),
            Phase::Open => Request::Open(self.at),
            Phase::DeniedGit(_) => Request::StatEntryGit(self.at),
            Phase::Target => Request::StatTarget(self.at),
            Phase::TargetGit => Request::StatEntryGit(self.at),
            Phase::Done => Request::Done,
        }
    }

    /// The path of the entry being decided.
    spec fn path(&self) -> Seq<u8> {
        below(self.rel@, self.buf@[self.at as int].name)
    }

    /// What the entry being decided will turn out to mean.
    spec fn current(&self, rules: Rules, facts: EntryFacts) -> Verdict {
        let name = self.buf@[self.at as int].name;
        match self.phase {
            Phase::Lstat => match facts.lstat {
                None => Verdict::Nothing,
                Some(kind) => kind_verdict(kind, name, self.path(), rules, facts),
            },
            Phase::GitFirst => if facts.git {
                Verdict::Repo
            } else {
                open_verdict(facts)
            },
            Phase::Open => open_verdict(facts),
            Phase::DeniedGit(e) => if facts.git {
                Verdict::Repo
            } else {
                Verdict::Unread(e)
            },
            Phase::Target => match facts.target {
                Err(e) => Verdict::Unresolved(e),
                Ok(is_dir) => if is_dir && (is_git_name(name) || facts.git) {
                    Verdict::Repo
                } else {
                    Verdict::Nothing
                },
            },
            _ => if facts.git {
                Verdict::Repo
            } else {
                Verdict::Nothing
            },
        }
    }

    /// What the scan will have found once the system has answered as `facts`
    /// say.
    pub closed spec fn outcome(&self, rules: Rules, facts: DirFacts) -> Seq<EventView> {
        match self.phase {
            Phase::OwnGit => if facts.git {
                seq![EventView::Repo(self.rel@)]
            } else {
                entry_events(self.rel@, self.buf@, rules, facts, 0)
            },
            Phase::Done => event_views(self.events@),
            _ => event_views(self.events@) + event_of(
                self.path(),
                self.current(rules, facts.entries[self.at as int]),
            ) + entry_events(self.rel@, self.buf@, rules, facts, self.at + 1),
        }
    }

    /// The questions that deciding the present entry still takes.
    spec fn current_questions(&self, rules: Rules, facts: EntryFacts) -> Seq<Request> {
        let name = self.buf@[self.at as int].name;
        let i = self.at as int;
        match self.phase {
            Phase::Lstat => seq![Request::Lstat(self.at)] + (match facts.lstat {
                None => Seq::empty(),
                Some(kind) => kind_questions(kind, name, self.path(), rules, facts, i),
            }),
            Phase::GitFirst => seq![Request::StatEntryGit(self.at)] + (if facts.git {
                Seq::empty()
            } else {
                open_questions(facts, i)
            }),
            Phase::Open => open_questions(facts, i),
            Phase::Target => target_questions(name, facts, i),
            _ => seq![Request::StatEntryGit(self.at)],
        }
    }

    /// The questions that the scan still asks, in order, if the system answers
    /// as `facts` say.
    pub closed spec fn ahead(&self, rules: Rules, facts: DirFacts) -> Seq<Request> {
        match self.phase {
            Phase::OwnGit => seq![Request::StatGit] + (if facts.git {
                Seq::empty()
            } else {
                entry_questions(self.rel@, self.buf@, rules, facts, 0)
            }),
            Phase::Done => Seq::empty(),
            _ => self.current_questions(rules, facts.entries[self.at as int]) + entry_questions(
                self.rel@,
                self.buf@,
                rules,
                facts,
                self.at + 1,
            ),
        }
    }

    /// How many questions may still be asked, at most.
    pub closed spec fn left(&self) -> nat {
        let step: int = match self.phase {
            Phase::OwnGit => 4,
            Phase::Lstat => 4,
            Phase::GitFirst => 3,
            Phase::Open => 2,
            Phase::DeniedGit(_) => 1,
            Phase::Target => 2,
            Phase::TargetGit => 1,
            Phase::Done => 0,
        };
        (if self.phase is Done {
            0
        } else if self.phase is OwnGit {
            4 * self.buf@.len() as int + 4
        } else {
            4 * (self.buf@.len() - self.at) - 4 + step
        }) as nat
    }

    /// Records what the entry being decided means and moves on to the next
    /// one; the caller sets the phase.
    fn settle(&mut self, v: Verdict)
        requires
            old(self).buf.wf(),
            old(self).at < old(self).buf@.len(),
        ensures
            final(self).buf == old(self).buf,
            final(self).rel == old(self).rel,
            final(self).phase == old(self).phase,
            final(self).at == old(self).at + 1,
            event_views(final(self).events@) == event_views(old(self).events@) + event_of(
                old(self).path(),
                v,
            ),
    {
        let mut path: Vec<u8> = Vec::new();
        join_rel(&mut path, self.rel.as_slice(), self.buf.name(self.at));
        assert(self.at < self.buf.ents.len());
        self.at = self.at + 1;
        match v {
            Verdict::Nothing => {},
            Verdict::Repo => self.events.push(Event::Repo(path)),
            Verdict::Excluded => self.events.push(Event::Excluded(path)),
            Verdict::Queue(h) => self.events.push(Event::Queue(path, h)),
            Verdict::Unread(e) => self.events.push(Event::Unread(path, e)),
            Verdict::Unresolved(e) => self.events.push(Event::Unresolved(path, e)),
        }
        assert(event_views(self.events@) =~= event_views(old(self).events@) + event_of(
            old(self).path(),
            v,
        ));
    }

    /// Begins on the entry being decided, knowing its kind: a verdict where
    /// that takes no question, else the phase that asks it.
    fn open_entry(&mut self, kind: Kind, rules: &Rules) -> (r: Option<Verdict>)
        requires
            old(self).buf.wf(),
            old(self).at < old(self).buf@.len(),
        ensures
            final(self).buf == old(self).buf,
            final(self).rel == old(self).rel,
            final(self).at == old(self).at,
            final(self).events == old(self).events,
            match r {
                Some(v) => {
                    &&& forall|facts: EntryFacts|
                        v == #[trigger] kind_verdict(
                            kind,
                            old(self).buf@[old(self).at as int].name,
                            old(self).path(),
                            *rules,
                            facts,
                        )
                    &&& forall|facts: EntryFacts| #[trigger]
                        kind_questions(
                            kind,
                            old(self).buf@[old(self).at as int].name,
                            old(self).path(),
                            *rules,
                            facts,
                            old(self).at as int,
                        ).len() == 0
                },
                None => {
                    &&& final(self).phase is GitFirst || final(self).phase is Open
                        || final(self).phase is Target
                    &&& (old(self).buf@[old(self).at as int].kind == kind || old(
                        self,
                    ).buf@[old(self).at as int].kind is Unknown) ==> final(self).is_at(
                        old(self).buf@[old(self).at as int],
                    )
                    &&& is_permitted(
                        final(self).request(),
                        old(self).rel@,
                        old(self).buf@,
                        rules.exclude@,
                    )
                    &&& forall|facts: EntryFacts|
                        final(self).current_questions(*rules, facts) == #[trigger] kind_questions(
                            kind,
                            old(self).buf@[old(self).at as int].name,
                            old(self).path(),
                            *rules,
                            facts,
                            old(self).at as int,
                        )
                    &&& forall|facts: EntryFacts|
                        final(self).current(*rules, facts) == #[trigger] kind_verdict(
                            kind,
                            old(self).buf@[old(self).at as int].name,
                            old(self).path(),
                            *rules,
                            facts,
                        )
                },
            },
    {
        match kind {
            Kind::Other | Kind::Unknown => Some(Verdict::Nothing),
            Kind::Dir | Kind::Symlink => {
                let name = self.buf.name(self.at);
                let mut path: Vec<u8> = Vec::new();
                join_rel(&mut path, self.rel.as_slice(), name);
                if is_excluded(&rules.exclude, path.as_slice()) {
                    return Some(Verdict::Excluded);
                }
                match kind {
                    Kind::Symlink => {
                        self.phase = Phase::Target;
                        None
                    },
                    _ => {
                        if ends_with(name, GIT_NAME.as_slice()) {
                            return Some(Verdict::Repo);
                        }
                        match rules.detect {
                            DetectStrategy::StatFirst => {
                                self.phase = Phase::GitFirst;
                            },
                            DetectStrategy::OpenScan => {
                                self.phase = Phase::Open;
                            },
                        }
                        None
                    },
                }
            },
        }
    }

    /// Goes through the entries from the present one on, up to the first that
    /// has to be asked about.
    fn advance(&mut self, rules: &Rules) -> (r: Request)
        requires
            old(self).buf.wf(),
            old(self).at <= old(self).buf@.len(),
        ensures
            final(self).wf(),
            final(self).dir() == old(self).dir(),
            final(self).ents() == old(self).ents(),
            !(final(self).phase is OwnGit),
            r == final(self).request(),
            is_permitted(r, old(self).rel@, old(self).buf@, rules.exclude@),
            forall|facts: DirFacts| #[trigger]
                final(self).ahead(*rules, facts) == entry_questions(
                    old(self).rel@,
                    old(self).buf@,
                    *rules,
                    facts,
                    old(self).at as int,
                ),
            forall|facts: DirFacts|
                #[trigger] final(self).outcome(*rules, facts) == event_views(old(self).events@)
                    + entry_events(
                    old(self).rel@,
                    old(self).buf@,
                    *rules,
                    facts,
                    old(self).at as int,
                ),
            final(self).left() <= 4 * (old(self).buf@.len() - old(self).at),
    {
        let ghost start = *self;
        while self.at < self.buf.len()
            invariant
                start == *old(self),
                self.buf == start.buf,
                self.rel == start.rel,
                self.buf.wf(),
                start.at <= self.at <= self.buf@.len(),
                forall|facts: DirFacts| #[trigger]
                    entry_questions(start.rel@, start.buf@, *rules, facts, start.at as int)
                        == entry_questions(start.rel@, start.buf@, *rules, facts, self.at as int),
                forall|facts: DirFacts|
                    #![trigger entry_events(start.rel@, start.buf@, *rules, facts, start.at as int)]
                    event_views(self.events@) + entry_events(
                        start.rel@,
                        start.buf@,
                        *rules,
                        facts,
                        self.at as int,
                    ) == event_views(start.events@) + entry_events(
                        start.rel@,
                        start.buf@,
                        *rules,
                        facts,
                        start.at as int,
                    ),
            decreases self.buf@.len() - self.at,
        {
            let ghost here = *self;
            let kind = self.buf.kind(self.at);
            let decided: Option<Verdict> = match kind {
                Kind::Unknown => {
                    self.phase = Phase::Lstat;
                    None
                },
                _ => self.open_entry(kind, rules),
            };
            match decided {
                None => {
                    proof {
                        assert forall|facts: DirFacts|
                            #[trigger] self.outcome(*rules, facts) == event_views(start.events@)
                                + entry_events(
                                start.rel@,
                                start.buf@,
                                *rules,
                                facts,
                                start.at as int,
                            ) by {
                            let f = facts.entries[here.at as int];
                            let ent = here.buf@[here.at as int];
                            assert(self.current(*rules, f) == verdict(ent, here.path(), *rules, f));
                            assert(self.outcome(*rules, facts) =~= event_views(here.events@)
                                + entry_events(
                                start.rel@,
                                start.buf@,
                                *rules,
                                facts,
                                here.at as int,
                            ));
                        }
                        assert forall|facts: DirFacts| #[trigger]
                            self.ahead(*rules, facts) == entry_questions(
                                start.rel@,
                                start.buf@,
                                *rules,
                                facts,
                                start.at as int,
                            ) by {
                            let f = facts.entries[here.at as int];
                            let ent = here.buf@[here.at as int];
                            assert(self.current_questions(*rules, f) == questions(
                                ent,
                                here.path(),
                                *rules,
                                f,
                                here.at as int,
                            ));
                        }
                    }
                    return self.ask();
                },
                Some(v) => {
                    self.settle(v);
                    proof {
                        assert forall|facts: DirFacts|
                            #![trigger entry_events(start.rel@, start.buf@, *rules, facts, start.at as int)]
                            event_views(self.events@) + entry_events(
                                start.rel@,
                                start.buf@,
                                *rules,
                                facts,
                                self.at as int,
                            ) == event_views(start.events@) + entry_events(
                                start.rel@,
                                start.buf@,
                                *rules,
                                facts,
                                start.at as int,
                            ) by {
                            let f = facts.entries[here.at as int];
                            let ent = here.buf@[here.at as int];
                            assert(v == verdict(ent, here.path(), *rules, f));
                            assert(event_views(self.events@) + entry_events(
                                start.rel@,
                                start.buf@,
                                *rules,
                                facts,
                                self.at as int,
                            ) =~= event_views(here.events@) + entry_events(
                                start.rel@,
                                start.buf@,
                                *rules,
                                facts,
                                here.at as int,
                            ));
                        }
                        assert forall|facts: DirFacts| #[trigger]
                            entry_questions(start.rel@, start.buf@, *rules, facts, start.at as int)
                                == entry_questions(
                                start.rel@,
                                start.buf@,
                                *rules,
                                facts,
                                self.at as int,
                            ) by {
                            let f = facts.entries[here.at as int];
                            let ent = here.buf@[here.at as int];
                            let none = questions(ent, here.path(), *rules, f, here.at as int);
                            let rest = entry_questions(
                                start.rel@,
                                start.buf@,
                                *rules,
                                facts,
                                self.at as int,
                            );
                            assert(none.len() == 0);
                            assert(none + rest =~= rest);
                        }
                    }
                },
            }
        }
        self.phase = Phase::Done;
        proof {
            assert forall|facts: DirFacts|
                #[trigger] self.outcome(*rules, facts) == event_views(start.events@)
                    + entry_events(start.rel@, start.buf@, *rules, facts, start.at as int) by {
                assert(event_views(self.events@) + entry_events(
                    start.rel@,
                    start.buf@,
                    *rules,
                    facts,
                    self.at as int,
                ) =~= event_views(self.events@));
            }
        }
        Request::Done
    }

    /// What has to be asked next.
    pub fn ask(&self) -> (r: Request)
        ensures
            r == self.request(),
            self.wf() ==> is_apt(r, self.ents()),
    {
        match self.phase {
            Phase::OwnGit => Request::StatGit,
            Phase::Lstat => Request::Lstat(self.at),
            Phase::GitFirst => Request::StatEntryGit(self.at),
            Phase::Open => Request::Open(self.at),
            Phase::DeniedGit(_) => Request::StatEntryGit(self.at),
            Phase::Target => Request::StatTarget(self.at),
            Phase::TargetGit => Request::StatEntryGit(self.at),
            Phase::Done => Request::Done,
        }
    }

    /// Begins deciding the directory `rel`, whose entries are `buf`.
    pub fn begin(rel: &[u8], buf: EntryBuf, rules: &Rules) -> (r: Scan)
        requires
            buf.wf(),
        ensures
            r.wf(),
            r.dir() == rel@,
            r.ents() == buf@,
            forall|facts: DirFacts|
                #[trigger] r.outcome(*rules, facts) == dir_events(rel@, buf@, *rules, facts),
            forall|facts: DirFacts| #[trigger]
                r.ahead(*rules, facts) == dir_questions(rel@, buf@, *rules, facts),
            is_apt(r.request(), buf@),
            is_permitted(r.request(), rel@, buf@, rules.exclude@),
            r.left() <= 4 * buf@.len() + 4,
    {
        let mut i: usize = 0;
        let mut scan = Scan {
            rel: slice_to_vec(rel),
            buf,
            at: 0,
            phase: Phase::Done,
            events: Vec::new(),
        };
        assert(event_views(scan.events@) =~= Seq::empty());
        while i < scan.buf.len()
            invariant
                scan.buf.wf(),
                scan.buf@ == buf@,
                scan.rel@ == rel@,
                scan.at == 0,
                scan.events@.len() == 0,
                i <= scan.buf@.len(),
                forall|git: bool|
                    #[trigger] holds_git(buf@, git, 0) == holds_git(buf@, git, i as int),
            decreases scan.buf@.len() - i,
        {
            if bytes_eq(scan.buf.name(i), GIT_NAME.as_slice()) {
                match scan.buf.kind(i) {
                    Kind::Symlink | Kind::Unknown => {
                        scan.phase = Phase::OwnGit;
                        proof {
                            assert(holds_git(buf@, true, 0) && !holds_git(buf@, false, 0));
                        }
                        return scan;
                    },
                    _ => {
                        scan.events.push(Event::Repo(slice_to_vec(rel)));
                        scan.phase = Phase::Done;
                        proof {
                            assert forall|facts: DirFacts|
                                #[trigger] scan.outcome(*rules, facts) == dir_events(
                                    rel@,
                                    buf@,
                                    *rules,
                                    facts,
                                ) by {
                                assert(holds_git(buf@, facts.git, 0));
                                assert(event_views(scan.events@) =~= seq![EventView::Repo(rel@)]);
                            }
                            assert(holds_git(buf@, true, 0) && holds_git(buf@, false, 0));
                        }
                        return scan;
                    },
                }
            }
            i += 1;
        }
        scan.advance(rules);
        proof {
            assert forall|facts: DirFacts|
                #[trigger] scan.outcome(*rules, facts) == dir_events(rel@, buf@, *rules, facts) by {
                assert(!holds_git(buf@, facts.git, 0));
                let all = entry_events(rel@, buf@, *rules, facts, 0);
                assert(Seq::<EventView>::empty() + all =~= all);
            }
            assert forall|facts: DirFacts| #[trigger]
                scan.ahead(*rules, facts) == dir_questions(rel@, buf@, *rules, facts) by {
                assert(!holds_git(buf@, true, 0) && !holds_git(buf@, facts.git, 0));
                let all = entry_questions(rel@, buf@, *rules, facts, 0);
                assert(Seq::<Request>::empty() + all =~= all);
            }
        }
        scan
    }

    /// Takes the answer to the last question, and asks the next one.
    ///
    /// Whatever the system is like, as long as the answer is true of it, the
    /// scan still comes to what the directory holds, and asks what is left of
    /// the questions that the directory takes.
    pub fn next(&mut self, reply: Reply, rules: &Rules) -> (r: Request)
        requires
            old(self).wf(),
            answers(old(self).request(), reply),
        ensures
            final(self).wf(),
            final(self).dir() == old(self).dir(),
            final(self).ents() == old(self).ents(),
            r == final(self).request(),
            forall|facts: DirFacts|
                agrees(old(self).request(), reply, facts) ==> #[trigger] final(self).outcome(
                    *rules,
                    facts,
                ) == old(self).outcome(*rules, facts),
            forall|facts: DirFacts|
                agrees(old(self).request(), reply, facts) ==> old(self).ahead(*rules, facts)
                    == seq![old(self).request()] + #[trigger] final(self).ahead(*rules, facts),
            is_apt(r, final(self).ents()),
            is_permitted(old(self).request(), old(self).dir(), old(self).ents(), rules.exclude@)
                ==> is_permitted(r, final(self).dir(), final(self).ents(), rules.exclude@),
            final(self).left() < old(self).left(),
    {
        let ghost start = *self;
        let decided: Option<Verdict> = match (self.phase, reply) {
            (Phase::OwnGit, Reply::Git(ok)) => {
                if ok {
                    self.events.push(Event::Repo(slice_to_vec(self.rel.as_slice())));
                    self.phase = Phase::Done;
                    proof {
                        assert(event_views(self.events@) =~= seq![EventView::Repo(start.rel@)]);
                    }
                    return Request::Done;
                }
                let r = self.advance(rules);
                proof {
                    assert forall|facts: DirFacts|
                        agrees(start.request(), reply, facts) implies #[trigger] self.outcome(
                        *rules,
                        facts,
                    ) == start.outcome(*rules, facts) by {
                        assert(event_views(start.events@) =~= Seq::empty());
                        let all = entry_events(start.rel@, start.buf@, *rules, facts, 0);
                        assert(Seq::<EventView>::empty() + all =~= all);
                    }
                    assert forall|facts: DirFacts|
                        agrees(start.request(), reply, facts) implies start.ahead(*rules, facts)
                        == seq![start.request()] + #[trigger] self.ahead(*rules, facts) by {}
                }
                return r;
            },
            (Phase::Lstat, Reply::Lstat(kind)) => {
                match kind {
                    None => Some(Verdict::Nothing),
                    Some(kind) => self.open_entry(kind, rules),
                }
            },
            (Phase::GitFirst, Reply::Git(ok)) => {
                if ok {
                    Some(Verdict::Repo)
                } else {
                    self.phase = Phase::Open;
                    None
                }
            },
            (Phase::Open, Reply::Open(opened)) => {
                match opened {
                    Opened::Handle(h) => Some(Verdict::Queue(Some(h))),
                    Opened::OverBudget => Some(Verdict::Queue(None)),
                    Opened::Failed(e) => match e {
                        Errno::MFILE | Errno::NFILE => Some(Verdict::Queue(None)),
                        Errno::ACCESS | Errno::PERM => {
                            self.phase = Phase::DeniedGit(e);
                            None
                        },
                        _ => Some(Verdict::Unread(e)),
                    },
                }
            },
            (Phase::DeniedGit(e), Reply::Git(ok)) => {
                if ok {
                    Some(Verdict::Repo)
                } else {
                    Some(Verdict::Unread(e))
                }
            },
            (Phase::Target, Reply::Target(target)) => {
                match target {
                    Err(e) => Some(Verdict::Unresolved(e)),
                    Ok(is_dir) => if !is_dir {
                        Some(Verdict::Nothing)
                    } else if ends_with(self.buf.name(self.at), GIT_NAME.as_slice()) {
                        Some(Verdict::Repo)
                    } else {
                        self.phase = Phase::TargetGit;
                        None
                    },
                }
            },
            (Phase::TargetGit, Reply::Git(ok)) => {
                if ok {
                    Some(Verdict::Repo)
                } else {
                    Some(Verdict::Nothing)
                }
            },
            _ => Some(Verdict::Nothing),
        };
        match decided {
            None => {
                proof {
                    assert forall|facts: DirFacts|
                        agrees(start.request(), reply, facts) implies #[trigger] self.outcome(
                        *rules,
                        facts,
                    ) == start.outcome(*rules, facts) by {
                        let f = facts.entries[start.at as int];
                        assert(self.current(*rules, f) == start.current(*rules, f));
                    }
                    assert forall|facts: DirFacts|
                        agrees(start.request(), reply, facts) implies start.ahead(*rules, facts)
                        == seq![start.request()] + #[trigger] self.ahead(*rules, facts) by {
                        let f = facts.entries[start.at as int];
                        assert(start.current_questions(*rules, f) =~= seq![start.request()]
                            + self.current_questions(*rules, f));
                        assert(start.ahead(*rules, facts) =~= seq![start.request()] + self.ahead(
                            *rules,
                            facts,
                        ));
                    }
                }
                self.ask()
            },
            Some(v) => {
                let ghost path = start.path();
                self.settle(v);
                let ghost mid = *self;
                let r = self.advance(rules);
                proof {
                    assert forall|facts: DirFacts|
                        agrees(start.request(), reply, facts) implies #[trigger] self.outcome(
                        *rules,
                        facts,
                    ) == start.outcome(*rules, facts) by {
                        let f = facts.entries[start.at as int];
                        assert(v == start.current(*rules, f));
                        assert(self.outcome(*rules, facts) == event_views(mid.events@)
                            + entry_events(
                            mid.rel@,
                            mid.buf@,
                            *rules,
                            facts,
                            mid.at as int,
                        ));
                    }
                    assert forall|facts: DirFacts|
                        agrees(start.request(), reply, facts) implies start.ahead(*rules, facts)
                        == seq![start.request()] + #[trigger] self.ahead(*rules, facts) by {
                        let f = facts.entries[start.at as int];
                        assert(start.current_questions(*rules, f) =~= seq![start.request()]);
                        assert(self.ahead(*rules, facts) == entry_questions(
                            mid.rel@,
                            mid.buf@,
                            *rules,
                            facts,
                            mid.at as int,
                        ));
                    }
                }
                r
            },
        }
    }

    /// What the directory gave rise to, once nothing is left to ask, and the
    /// entry buffer for the next directory.
    pub fn finish(self) -> (r: (Vec<Event>, EntryBuf))
        requires
            self.wf(),
            self.request() is Done,
        ensures
            forall|rules: Rules, facts: DirFacts|
                event_views(r.0@) == #[trigger] self.outcome(rules, facts),
            forall|rules: Rules, facts: DirFacts| #[trigger]
                self.ahead(rules, facts) == Seq::<Request>::empty(),
            r.1.wf(),
            r.1@ == self.ents(),
    {
        (self.events, self.buf)
    }
}

/// How a repository's path is printed: the root's own path, which is empty,
/// as `.`.
pub open spec fn printed(rel: Seq<u8>) -> Seq<u8> {
    if rel.len() == 0 {
        seq![DOT]
    } else {
        rel
    }
}

/// The repositories among events, as they are printed.
pub open spec fn printed_repos(events: Seq<EventView>) -> Seq<Seq<u8>>
    decreases events.len(),
{
    if events.len() == 0 {
        Seq::empty()
    } else {
        let rest = printed_repos(events.drop_last());
        match events.last() {
            EventView::Repo(p) => rest.push(printed(p)),
            _ => rest,
        }
    }
}

/// The bytes that the printed repositories among events take up.
pub open spec fn printed_size(events: Seq<EventView>) -> nat
    decreases events.len(),
{
    if events.len() == 0 {
        0
    } else {
        printed_size(events.drop_last()) + match events.last() {
            EventView::Repo(p) => printed(p).len(),
            _ => 0,
        }
    }
}

/// The records of the repositories among events.
pub open spec fn repo_records(events: Seq<EventView>) -> Seq<RecordView>
    decreases events.len(),
{
    if events.len() == 0 {
        Seq::empty()
    } else {
        let rest = repo_records(events.drop_last());
        match events.last() {
            EventView::Repo(p) => rest.push(RecordView { rel: p, mtime_ns: None }),
            _ => rest,
        }
    }
}

/// How many of the events are exclusions.
pub open spec fn excluded_count(events: Seq<EventView>) -> nat
    decreases events.len(),
{
    if events.len() == 0 {
        0
    } else {
        excluded_count(events.drop_last()) + if events.last() is Excluded {
            1nat
        } else {
            0
        }
    }
}

/// The directories that events put on the queue.
pub open spec fn queued(events: Seq<EventView>) -> Seq<JobView>
    decreases events.len(),
{
    if events.len() == 0 {
        Seq::empty()
    } else {
        let rest = queued(events.drop_last());
        match events.last() {
            EventView::Queue(p, h) => rest.push(JobView { rel: p, handle: h }),
            _ => rest,
        }
    }
}

/// Whether some event is a directory that exists and went unread.
pub open spec fn leaves_gap(events: Seq<EventView>) -> bool {
    exists|i: int|
        0 <= i < events.len() && (#[trigger] events[i] matches EventView::Unread(_, e)
            && shortens(e))
}

/// Whether the events say that the directory `rel` is itself a repository.
pub open spec fn is_own_repo(events: Seq<EventView>, rel: Seq<u8>) -> bool {
    events.len() > 0 && events[0] == EventView::Repo(rel)
}

/// A directory the walk has found but not yet read: with the number of the
/// handle its parent opened, or with its path alone.
#[derive(Debug)]
pub struct Job {
    pub rel: Vec<u8>,
    pub handle: Option<usize>,
}

/// What a [`Job`] says.
pub struct JobView {
    pub rel: Seq<u8>,
    pub handle: Option<usize>,
}

impl View for Job {
    type V = JobView;

    open spec fn view(&self) -> JobView {
        JobView { rel: self.rel@, handle: self.handle }
    }
}

/// What a list of jobs says.
pub open spec fn job_views(v: Seq<Job>) -> Seq<JobView> {
    Seq::new(v.len(), |i: int| v[i]@)
}

/// Everything one worker produces.
#[derive(Debug)]
pub struct Out {
    pub arena: Arena,
    pub dirs_read: usize,
    pub excluded: usize,
    /// Whether directories and repositories are remembered for the index.
    pub record: bool,
    pub records: Vec<Record>,
    /// Whether a directory that exists went unread.
    pub incomplete: bool,
}

impl Default for Out {
    fn default() -> (r: Self)
        ensures
            r.wf(),
            r.arena@ == Seq::<Seq<u8>>::empty(),
            r.arena.size() == 0,
            r.dirs_read == 0,
            r.excluded == 0,
            !r.record,
            r.records@.len() == 0,
            !r.incomplete,
    {
        Out {
            arena: Arena::default(),
            dirs_read: 0,
            excluded: 0,
            record: false,
            records: Vec::new(),
            incomplete: false,
        }
    }
}

impl Out {
    pub open spec fn wf(&self) -> bool {
        self.arena.wf()
    }

    /// Notes one repository at root-relative path `rel`; the root itself is
    /// printed as `.`.
    pub fn emit(&mut self, rel: &[u8])
        requires
            old(self).wf(),
            old(self).arena.size() + printed(rel@).len() <= u32::MAX,
        ensures
            final(self).wf(),
            final(self).arena@ == old(self).arena@.push(printed(rel@)),
            final(self).arena.size() == old(self).arena.size() + printed(rel@).len(),
            final(self).dirs_read == old(self).dirs_read,
            final(self).excluded == old(self).excluded,
            final(self).record == old(self).record,
            final(self).incomplete == old(self).incomplete,
            record_views(final(self).records@) == if old(self).record {
                record_views(old(self).records@).push(RecordView { rel: rel@, mtime_ns: None })
            } else {
                record_views(old(self).records@)
            },
    {
        if rel.len() == 0 {
            let mut dot: Vec<u8> = Vec::new();
            dot.push(DOT);
            assert(dot@ =~= printed(rel@));
            self.arena.push(dot.as_slice());
        } else {
            self.arena.push(rel);
        }
        if self.record {
            self.records.push(Record::repo(rel));
            assert(record_views(self.records@) =~= record_views(old(self).records@).push(
                RecordView { rel: rel@, mtime_ns: None },
            ));
        }
    }

    /// Takes in what the directory `rel` gave rise to: its repositories, its
    /// exclusions and its unread children are noted, and what is to be read
    /// goes on the queue. `mtime_ns` is the directory's own mtime, where it
    /// is known; recording needs it of every directory that is not itself a
    /// repository.
    pub fn settle(
        &mut self,
        rel: &[u8],
        mtime_ns: Option<i64>,
        events: &Vec<Event>,
        children: &mut Vec<Job>,
    )
        requires
            old(self).wf(),
            old(self).dirs_read < usize::MAX,
            old(self).excluded + events@.len() <= usize::MAX,
            old(self).arena.size() + printed_size(event_views(events@)) <= u32::MAX,
        ensures
            final(self).wf(),
            final(self).arena@ == old(self).arena@ + printed_repos(event_views(events@)),
            final(self).arena.size() == old(self).arena.size() + printed_size(
                event_views(events@),
            ),
            final(self).dirs_read == old(self).dirs_read + 1,
            final(self).excluded == old(self).excluded + excluded_count(event_views(events@)),
            final(self).record == old(self).record,
            record_views(final(self).records@) == record_views(old(self).records@) + (if !old(
                self,
            ).record {
                Seq::empty()
            } else if is_own_repo(event_views(events@), rel@) || mtime_ns is None {
                repo_records(event_views(events@))
            } else {
                seq![RecordView { rel: rel@, mtime_ns }] + repo_records(event_views(events@))
            }),
            final(self).incomplete == (old(self).incomplete || leaves_gap(event_views(events@))
                || (old(self).record && mtime_ns is None && !is_own_repo(
                event_views(events@),
                rel@,
            ))),
            job_views(final(children)@) == job_views(old(children)@) + queued(event_views(events@)),
    {
        let ghost all = event_views(events@);
        self.dirs_read = self.dirs_read + 1;
        let own = events.len() > 0 && match &events[0] {
            Event::Repo(p) => bytes_eq(p.as_slice(), rel),
            _ => false,
        };
        assert(own == is_own_repo(all, rel@));
        if self.record && !own {
            match mtime_ns {
                Some(mtime) => {
                    self.records.push(Record::dir(rel, mtime));
                    assert(record_views(self.records@) =~= record_views(old(self).records@)
                        + seq![RecordView { rel: rel@, mtime_ns }]);
                },
                None => {
                    self.incomplete = true;
                },
            }
        }
        let ghost base = record_views(self.records@);
        let ghost short = self.incomplete;
        let mut i: usize = 0;
        proof {
            assert(all.take(0) =~= Seq::empty());
            assert(self.arena@ + printed_repos(all.take(0)) =~= self.arena@);
            assert(base + repo_records(all.take(0)) =~= base);
            assert(job_views(children@) + queued(all.take(0)) =~= job_views(children@));
        }
        while i < events.len()
            invariant
                i <= events@.len(),
                all == event_views(events@),
                self.wf(),
                old(self).excluded + events@.len() <= usize::MAX,
                excluded_count(all.take(i as int)) <= i,
                printed_size(all.take(i as int)) <= printed_size(all),
                old(self).arena.size() + printed_size(all) <= u32::MAX,
                self.arena@ == old(self).arena@ + printed_repos(all.take(i as int)),
                self.arena.size() == old(self).arena.size() + printed_size(all.take(i as int)),
                self.dirs_read == old(self).dirs_read + 1,
                self.excluded == old(self).excluded + excluded_count(all.take(i as int)),
                self.record == old(self).record,
                record_views(self.records@) == if old(self).record {
                    base + repo_records(all.take(i as int))
                } else {
                    base
                },
                self.incomplete == (short || leaves_gap(all.take(i as int))),
                job_views(children@) == job_views(old(children)@) + queued(all.take(i as int)),
            decreases events@.len() - i,
        {
            let ghost done = all.take(i as int);
            let ghost next = all.take(i + 1);
            proof {
                assert(next.drop_last() =~= done);
                assert(next.last() == events@[i as int]@);
                lemma_printed_size_mono(all, i + 1);
                assert(leaves_gap(next) == (leaves_gap(done) || (next.last() matches
                    EventView::Unread(_, e) && shortens(e)))) by {
                    if leaves_gap(done) {
                        let k = choose|k: int|
                            0 <= k < done.len() && (#[trigger] done[k] matches EventView::Unread(
                                _,
                                e,
                            ) && shortens(e));
                        assert(next[k] == done[k]);
                    }
                    if leaves_gap(next) {
                        let k = choose|k: int|
                            0 <= k < next.len() && (#[trigger] next[k] matches EventView::Unread(
                                _,
                                e,
                            ) && shortens(e));
                        if k < i {
                            assert(done[k] == next[k]);
                        }
                    }
                    if next.last() matches EventView::Unread(_, e) && shortens(e) {
                        assert(next[i as int] == next.last());
                    }
                }
            }
            match &events[i] {
                Event::Repo(p) => {
                    self.emit(p.as_slice());
                },
                Event::Excluded(_) => {
                    self.excluded = self.excluded + 1;
                },
                Event::Queue(p, h) => {
                    let ghost before = children@;
                    children.push(Job { rel: slice_to_vec(p.as_slice()), handle: *h });
                    assert(job_views(children@) =~= job_views(before).push(
                        JobView { rel: p@, handle: *h },
                    ));
                },
                Event::Unread(_, e) => {
                    if drops_a_subtree(*e) {
                        self.incomplete = true;
                    }
                },
                Event::Unresolved(_, _) => {},
            }
            i += 1;
            proof {
                assert(self.arena@ =~= old(self).arena@ + printed_repos(next));
                assert(job_views(children@) =~= job_views(old(children)@) + queued(next));
                if old(self).record {
                    assert(record_views(self.records@) =~= base + repo_records(next));
                }
            }
        }
        proof {
            assert(all.take(events@.len() as int) =~= all);
            if old(self).record {
                if own || mtime_ns is None {
                } else {
                    assert(record_views(self.records@) =~= record_views(old(self).records@) + (seq![
                        RecordView { rel: rel@, mtime_ns },
                    ] + repo_records(all)));
                }
            } else {
                assert(record_views(old(self).records@) + Seq::<RecordView>::empty()
                    =~= record_views(old(self).records@));
            }
        }
    }

    /// Notes a directory that could not be opened or read.
    pub fn unread(&mut self, err: Errno)
        ensures
            final(self).incomplete == (old(self).incomplete || shortens(err)),
            final(self).arena == old(self).arena,
            final(self).dirs_read == old(self).dirs_read,
            final(self).excluded == old(self).excluded,
            final(self).record == old(self).record,
            final(self).records == old(self).records,
    {
        if drops_a_subtree(err) {
            self.incomplete = true;
        }
    }

    /// Folds another worker's output into this one.
    pub fn merge(&mut self, other: Out)
        requires
            old(self).wf(),
            other.wf(),
            old(self).arena.size() + other.arena.size() <= u32::MAX,
            old(self).dirs_read + other.dirs_read <= usize::MAX,
            old(self).excluded + other.excluded <= usize::MAX,
        ensures
            final(self).wf(),
            final(self).arena@ == old(self).arena@ + other.arena@,
            final(self).arena.size() == old(self).arena.size() + other.arena.size(),
            final(self).dirs_read == old(self).dirs_read + other.dirs_read,
            final(self).excluded == old(self).excluded + other.excluded,
            final(self).record == old(self).record,
            record_views(final(self).records@) == record_views(old(self).records@) + record_views(
                other.records@,
            ),
            final(self).incomplete == (old(self).incomplete || other.incomplete),
    {
        self.arena.merge(&other.arena);
        self.dirs_read = self.dirs_read + other.dirs_read;
        self.excluded = self.excluded + other.excluded;
        let mut records = other.records;
        self.records.append(&mut records);
        assert(record_views(self.records@) =~= record_views(old(self).records@) + record_views(
            other.records@,
        ));
        if other.incomplete {
            self.incomplete = true;
        }
    }
}

proof fn lemma_printed_size_mono(events: Seq<EventView>, n: int)
    requires
        0 <= n <= events.len(),
    ensures
        printed_size(events.take(n)) <= printed_size(events),
    decreases events.len() - n,
{
    if n < events.len() {
        lemma_printed_size_mono(events, n + 1);
        assert(events.take(n + 1).drop_last() =~= events.take(n));
    } else {
        assert(events.take(n) =~= events);
    }
}

} // verus!
