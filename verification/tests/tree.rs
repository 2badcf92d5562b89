use std::collections::{BTreeMap, VecDeque};

use scap::index::assemble::{basename, build, parent_of};
use scap::index::cache::{
    cache_dir_from, check_root, describes, exclude_patterns, fnv1a64, ident, merged, mode, now_ns, Cache, ListStep,
    Mode, Stage,
};
use scap::index::format::{
    decode, encode, is_safe_rel, push_bytes, push_len, Entry, Index, MAGIC, VERSION,
};
use scap::index::validate::{
    is_racy, probe, probe_dir, probe_repo, walk_index, Probe, ProbeRequest, RACY_WINDOW_NS,
};
use scap::paths::file_name;
use scap::walk::arena::Arena;
use scap::walk::pool::{
    clamp_threads, idle, sources, was_last, work, Idle, Source, Work, MAX_THREADS,
    SPINS_BEFORE_PARK,
};
use scap::walk::sys::{
    abs, drops_a_subtree, join_rel, report_io_error, report_reopen_error, EntryBuf, Errno, Event, FileType, Job, Kind, Opened, Out, Reply,
    Request, Rules, Scan,
};
use scap::walk::{
    detect_rejected, may_open, mtime_ns, parse_detect_strategy, parse_threads, threads_rejected,
    walk_root, warn_unwalkable_root, DetectStrategy, Pattern, Record, RootListing, RootStep, WalkError, WalkOptions,
    DEFAULT_THREADS, FD_CAP,
};

const BOTH: [DetectStrategy; 2] = [DetectStrategy::OpenScan, DetectStrategy::StatFirst];

/// 2021-09-13: long before anything the tests' clock says.
const SETTLED: i64 = 1_631_500_000_000_000_000;

// A file system in memory: what the walk asks of the real one, answered.

#[derive(Clone)]
enum Node {
    Dir { mode: u32, mtime: i64, ino: u64 },
    File,
    Link(String),
}

struct Tree {
    nodes: BTreeMap<String, Node>,
    clock: i64,
    inodes: u64,
}

fn parent(path: &str) -> &str {
    match path.rfind('/') {
        Some(0) | None => "/",
        Some(i) => &path[..i],
    }
}

fn at(dir: &str, name: &str) -> String {
    if name.is_empty() || name == "." {
        dir.to_owned()
    } else if dir == "/" {
        format!("/{name}")
    } else {
        format!("{dir}/{name}")
    }
}

impl Tree {
    fn new() -> Self {
        let mut tree = Tree { nodes: BTreeMap::new(), clock: 1_700_000_000_000_000_000, inodes: 1 };
        let root = tree.fresh_dir();
        tree.nodes.insert("/".to_owned(), root);
        tree
    }

    fn fresh_dir(&mut self) -> Node {
        self.inodes += 1;
        Node::Dir { mode: 0o755, mtime: self.clock, ino: self.inodes }
    }

    /// A change to the entries of `dir`.
    fn touch(&mut self, dir: &str) {
        self.clock += 1_000_000;
        let now = self.clock;
        if let Some(Node::Dir { mtime, .. }) = self.nodes.get_mut(dir) {
            *mtime = now;
        }
    }

    fn put(&mut self, path: &str, node: Node) {
        self.mkdir(parent(path));
        self.touch(parent(path));
        self.nodes.insert(path.to_owned(), node);
    }

    fn mkdir(&mut self, path: &str) {
        if self.nodes.contains_key(path) {
            return;
        }
        self.mkdir(parent(path));
        self.touch(parent(path));
        let dir = self.fresh_dir();
        self.nodes.insert(path.to_owned(), dir);
    }

    fn dir(&mut self, root: &str, rel: &str) {
        self.mkdir(&at(root, rel));
    }

    fn repo(&mut self, root: &str, rel: &str) {
        self.mkdir(&at(&at(root, rel), ".git"));
    }

    fn file(&mut self, path: &str) {
        self.put(path, Node::File);
    }

    fn link(&mut self, target: &str, path: &str) {
        self.put(path, Node::Link(target.to_owned()));
    }

    fn chmod(&mut self, path: &str, bits: u32) {
        if let Some(Node::Dir { mode, .. }) = self.nodes.get_mut(path) {
            *mode = bits;
        }
    }

    fn under(&self, path: &str) -> Vec<String> {
        let below = format!("{path}/");
        self.nodes.keys().filter(|p| *p == path || p.starts_with(&below)).cloned().collect()
    }

    fn remove(&mut self, path: &str) {
        for gone in self.under(path) {
            self.nodes.remove(&gone);
        }
        self.touch(parent(path));
    }

    fn rename(&mut self, from: &str, to: &str) {
        self.mkdir(parent(to));
        for old in self.under(from) {
            let node = self.nodes.remove(&old).expect("moved node");
            self.nodes.insert(format!("{to}{}", &old[from.len()..]), node);
        }
        self.touch(parent(from));
        self.touch(parent(to));
    }

    /// Rewinds every directory at and under `path`.
    fn backdate(&mut self, path: &str) {
        for p in self.under(path) {
            if let Some(Node::Dir { mtime, .. }) = self.nodes.get_mut(&p) {
                *mtime = SETTLED;
            }
        }
    }

    /// The path a path stands for, its last component followed or not.
    fn resolve(&self, path: &str, follow: bool) -> Result<String, Errno> {
        let mut todo: VecDeque<String> =
            path.split('/').filter(|c| !c.is_empty()).map(str::to_owned).collect();
        let mut here = "/".to_owned();
        let mut links = 0;
        while let Some(name) = todo.pop_front() {
            match self.nodes.get(&here) {
                Some(Node::Dir { mode, .. }) => {
                    if mode & 0o111 == 0 {
                        return Err(Errno::ACCESS);
                    }
                }
                Some(_) => return Err(Errno::NOTDIR),
                None => return Err(Errno::NOENT),
            }
            if name == "." {
                continue;
            }
            if name == ".." {
                here = parent(&here).to_owned();
                continue;
            }
            let next = at(&here, &name);
            match self.nodes.get(&next) {
                None => return Err(Errno::NOENT),
                Some(Node::Link(target)) if follow || !todo.is_empty() => {
                    links += 1;
                    if links > 40 {
                        return Err(Errno::LOOP);
                    }
                    if target.starts_with('/') {
                        here = "/".to_owned();
                    }
                    for part in target.split('/').filter(|c| !c.is_empty()).rev() {
                        todo.push_front(part.to_owned());
                    }
                }
                Some(_) => here = next,
            }
        }
        Ok(here)
    }

    fn stat(&self, path: &str, follow: bool) -> Result<u32, Errno> {
        let at = self.resolve(path, follow)?;
        match self.nodes.get(&at) {
            Some(Node::Dir { mode, .. }) => Ok(0o040000 | mode),
            Some(Node::File) => Ok(0o100644),
            Some(Node::Link(_)) => Ok(0o120777),
            None => Err(Errno::NOENT),
        }
    }

    fn open(&self, path: &str, follow: bool) -> Result<String, Errno> {
        let at = self.resolve(path, follow)?;
        match self.nodes.get(&at) {
            Some(Node::Dir { mode, .. }) if mode & 0o444 == 0 => Err(Errno::ACCESS),
            Some(Node::Dir { .. }) => Ok(at),
            Some(Node::Link(_)) => Err(Errno::LOOP),
            Some(Node::File) => Err(Errno::NOTDIR),
            None => Err(Errno::NOENT),
        }
    }

    fn entries(&self, dir: &str) -> Vec<(String, Kind)> {
        let below = if dir == "/" { "/".to_owned() } else { format!("{dir}/") };
        self.nodes
            .iter()
            .filter_map(|(path, node)| {
                let name = path.strip_prefix(&below)?;
                if name.is_empty() || name.contains('/') {
                    return None;
                }
                let kind = match node {
                    Node::Dir { .. } => Kind::Dir,
                    Node::File => Kind::Other,
                    Node::Link(_) => Kind::Symlink,
                };
                Some((name.to_owned(), kind))
            })
            .collect()
    }

    fn mtime(&self, dir: &str) -> Option<i64> {
        match self.nodes.get(dir) {
            Some(Node::Dir { mtime, .. }) => Some(*mtime),
            _ => None,
        }
    }

    fn identity(&self, root: &str) -> Option<(u64, u64)> {
        let at = self.open(root, true).ok()?;
        match self.nodes.get(&at) {
            Some(Node::Dir { ino, .. }) => Some((ident(7), ident(i128::from(*ino)))),
            _ => None,
        }
    }
}

fn text(err: Errno) -> &'static str {
    match err {
        Errno::ACCESS | Errno::PERM => "Permission denied",
        Errno::NOENT => "No such file or directory",
        _ => "error",
    }
}

/// Reads directories of a tree the way a worker reads those of a disk.
struct Reader<'t> {
    tree: &'t Tree,
    root: String,
    rules: Rules,
    cap: usize,
    live: usize,
    handles: Vec<String>,
    warnings: Vec<String>,
    /// Whether the tree keeps the kinds of its entries to itself.
    untyped: bool,
}

impl<'t> Reader<'t> {
    fn new(tree: &'t Tree, root: &str, opts: &WalkOptions, cap: usize) -> Self {
        Reader {
            tree,
            root: root.to_owned(),
            rules: Rules { exclude: opts.exclude.clone(), detect: opts.detect },
            cap,
            live: 0,
            handles: Vec::new(),
            warnings: Vec::new(),
            untyped: false,
        }
    }

    fn warn(&mut self, path: &[u8], err: Errno) {
        self.warnings.extend(report_io_error(self.root.as_bytes(), path, err));
    }

    fn read(&mut self, dir: &str, rel: &[u8], out: &mut Out, queue: &mut Vec<Job>) {
        let entries = self.tree.entries(dir);
        let mut buf = EntryBuf::default();
        buf.push(b".", Kind::Dir);
        buf.push(b"..", Kind::Dir);
        for (name, kind) in &entries {
            buf.push(name.as_bytes(), if self.untyped { Kind::Unknown } else { *kind });
        }
        assert_eq!(buf.len(), entries.len());
        let path = |i: usize| at(dir, &entries[i].0);
        let mut scan = Scan::begin(rel, buf, &self.rules);
        let mut request = scan.ask();
        while request != Request::Done {
            let reply = match request {
                Request::StatGit => Reply::Git(self.tree.stat(&at(dir, ".git"), true).is_ok()),
                Request::Lstat(i) => {
                    Reply::Lstat(self.tree.stat(&path(i), false).ok().map(Kind::from_raw_mode))
                }
                Request::StatEntryGit(i) => {
                    Reply::Git(self.tree.stat(&at(&path(i), ".git"), true).is_ok())
                }
                Request::StatTarget(i) => Reply::Target(
                    self.tree.stat(&path(i), true).map(|m| Kind::from_raw_mode(m) == Kind::Dir),
                ),
                Request::Open(i) => Reply::Open(if !may_open(self.live, self.cap) {
                    Opened::OverBudget
                } else {
                    match self.tree.open(&path(i), false) {
                        Ok(dir) => {
                            self.live += 1;
                            self.handles.push(dir);
                            Opened::Handle(self.handles.len() - 1)
                        }
                        Err(err) => Opened::Failed(err),
                    }
                }),
                Request::Done => unreachable!(),
            };
            request = scan.next(reply, &self.rules);
            assert_eq!(request, scan.ask());
        }
        let (events, _) = scan.finish();
        for event in &events {
            if let Event::Unread(path, err) = event {
                self.warn(path, *err);
            }
        }
        let mtime = self.tree.mtime(dir);
        out.settle(rel, mtime, &events, queue);
    }

    fn run(&mut self, job: Job, out: &mut Out, queue: &mut Vec<Job>) {
        let dir = match job.handle {
            Some(handle) => {
                self.live -= 1;
                Ok(self.handles[handle].clone())
            }
            None => {
                self.tree.open(&at(&self.root, &String::from_utf8_lossy(&job.rel)), false)
            }
        };
        match dir {
            Ok(dir) => self.read(&dir, &job.rel, out, queue),
            Err(err) => {
                out.unread(err);
                let root = self.root.as_bytes();
                self.warnings.extend(report_reopen_error(root, &job.rel, err, text(err)));
            }
        }
    }

    /// Works a queue off, the jobs dealt out to the workers in turn, half of
    /// them newest first and half of them oldest first.
    fn drain(&mut self, mut seed: Out, queue: Vec<Job>, record: bool, threads: usize) -> Out {
        let mut queue: VecDeque<Job> = queue.into();
        let mut outs: Vec<Out> = Vec::new();
        for _ in 0..threads {
            let mut out = Out::default();
            out.record = record;
            outs.push(out);
        }
        let mut turn = 0;
        while !queue.is_empty() {
            let me = turn % threads;
            turn += 1;
            let job = if me % 2 == 0 { queue.pop_back() } else { queue.pop_front() };
            let mut children = Vec::new();
            self.run(job.expect("a job"), &mut outs[me], &mut children);
            queue.extend(children);
        }
        for out in outs {
            seed.merge(out);
        }
        assert_eq!(self.live, 0, "every handle was taken back");
        seed
    }
}

fn walk_with(
    tree: &Tree,
    root: &str,
    opts: &WalkOptions,
    cap: usize,
    untyped: bool,
) -> (RootListing, Vec<String>) {
    let stat = tree.stat(root, true);
    match walk_root(root.as_bytes(), stat, opts.record).expect("no NUL in a test root") {
        RootStep::Skip => (RootListing::default(), Vec::new()),
        RootStep::Warn(err) => {
            (RootListing::default(), vec![warn_unwalkable_root(root.as_bytes(), err, text(err))])
        }
        RootStep::Listed(listing) => (listing, Vec::new()),
        RootStep::Read => {
            let mut reader = Reader::new(tree, root, opts, cap);
            reader.untyped = untyped;
            let dir = tree.open(root, true).expect("a readable root");
            let mut out = Out::default();
            out.record = opts.record;
            let mut queue = Vec::new();
            reader.read(&dir, b"", &mut out, &mut queue);
            let threads = clamp_threads(opts.threads);
            let out = reader.drain(out, queue, opts.record, threads);
            (RootListing::from_out(out), reader.warnings)
        }
    }
}

fn walk_listing(tree: &Tree, root: &str, opts: &WalkOptions) -> RootListing {
    walk_with(tree, root, opts, FD_CAP, false).0
}

fn options(detect: DetectStrategy, exclude: &[&str]) -> WalkOptions {
    WalkOptions {
        threads: DEFAULT_THREADS,
        exclude: exclude.iter().copied().map(Pattern::new).collect(),
        detect,
        record: false,
    }
}

fn recording(detect: DetectStrategy, exclude: &[&str]) -> WalkOptions {
    options(detect, exclude).with_record(true)
}

fn sorted(listing: &RootListing) -> Vec<String> {
    let repos = listing.repos();
    assert_eq!(repos.len(), listing.len());
    let mut found: Vec<String> =
        repos.iter().map(|r| String::from_utf8_lossy(r).into_owned()).collect();
    found.sort_unstable();
    found
}

fn walk(tree: &Tree, root: &str, opts: &WalkOptions) -> Vec<String> {
    sorted(&walk_listing(tree, root, opts))
}

// Which directories are repositories.

#[test]
fn walk_root_finds_every_repository_under_the_root() {
    let mut t = Tree::new();
    t.repo("/r", "github.com/zchee/scap");
    t.repo("/r", "github.com/zchee/ghq");
    t.repo("/r", "gitlab.com/a/b");
    t.dir("/r", "github.com/empty-owner");
    t.file("/r/stray-file");

    for detect in BOTH {
        assert_eq!(
            walk(&t, "/r", &options(detect, &[])),
            vec!["github.com/zchee/ghq", "github.com/zchee/scap", "gitlab.com/a/b"],
            "{detect:?}"
        );
    }
}

#[test]
fn walk_one_reports_the_repositories_under_a_root() {
    let mut t = Tree::new();
    for rel in ["github.com/a/x", "github.com/b/y"] {
        t.repo("/r", rel);
    }
    let listing = walk_listing(&t, "/r", &WalkOptions::new(2, Vec::new(), None));
    assert_eq!(sorted(&listing), vec!["github.com/a/x", "github.com/b/y"]);
    assert_eq!(listing.excluded(), 0);
}

#[test]
fn a_repository_inside_a_repository_is_never_reached() {
    let mut t = Tree::new();
    t.repo("/r", "outer");
    t.repo("/r", "outer/!early");
    t.repo("/r", "outer/zlate");
    t.dir("/r", "outer/plain/deeper");

    for detect in BOTH {
        assert_eq!(walk(&t, "/r", &options(detect, &[])), vec!["outer"], "{detect:?}");
    }
}

#[test]
fn a_directory_named_dot_git_suffixed_is_a_repository_and_is_not_opened() {
    let mut t = Tree::new();
    t.dir("/r", "mirror/bare.git");
    t.repo("/r", "mirror/bare.git/inner");

    for detect in BOTH {
        let listing = walk_listing(&t, "/r", &options(detect, &[]));
        assert_eq!(sorted(&listing), vec!["mirror/bare.git"], "{detect:?}");
        assert_eq!(listing.dirs_read(), 2, "{detect:?}: only the root and `mirror` are read");
    }
}

#[test]
fn a_gitfile_marks_a_repository() {
    let mut t = Tree::new();
    t.file("/r/worktree/.git");

    for detect in BOTH {
        assert_eq!(walk(&t, "/r", &options(detect, &[])), vec!["worktree"], "{detect:?}");
    }
}

#[test]
fn a_dangling_git_symlink_is_not_a_repository() {
    let mut t = Tree::new();
    t.link("nowhere", "/r/dangling/.git");
    t.repo("/r", "real");

    for detect in BOTH {
        assert_eq!(walk(&t, "/r", &options(detect, &[])), vec!["real"], "{detect:?}");
    }
}

#[test]
fn a_git_symlink_that_resolves_is_a_repository() {
    let mut t = Tree::new();
    t.dir("/r", "store/realgit");
    t.link("../store/realgit", "/r/linked/.git");

    for detect in BOTH {
        assert_eq!(walk(&t, "/r", &options(detect, &[])), vec!["linked"], "{detect:?}");
    }
}

#[test]
fn a_symlink_to_a_repository_is_emitted_at_the_links_own_path() {
    let mut t = Tree::new();
    t.repo("/r", "github.com/a/x");
    t.link("/r/github.com/a/x", "/r/mirror");

    for detect in BOTH {
        assert_eq!(
            walk(&t, "/r", &options(detect, &[])),
            vec!["github.com/a/x", "mirror"],
            "{detect:?}"
        );
    }
}

#[test]
fn a_symlink_to_a_plain_directory_is_not_descended() {
    let mut t = Tree::new();
    t.repo("/r", "plain/nested/repo");
    t.link("/r/plain", "/r/link-to-plaindir");

    for detect in BOTH {
        assert_eq!(walk(&t, "/r", &options(detect, &[])), vec!["plain/nested/repo"], "{detect:?}");
    }
}

#[test]
fn links_that_resolve_to_nothing_useful_are_ignored() {
    let mut t = Tree::new();
    t.repo("/r", "real");
    t.file("/r/target-file");
    t.link("/r/target-file", "/r/link-to-file");
    t.link("no-such-entry", "/r/dangling");
    t.link("/r", "/r/loop");

    for detect in BOTH {
        assert_eq!(walk(&t, "/r", &options(detect, &[])), vec!["real"], "{detect:?}");
    }
}

#[test]
fn the_dot_git_suffix_test_reads_the_links_own_name() {
    let mut t = Tree::new();
    t.dir("/r", "plaindir");
    t.dir("/r", "store/upstream.git");
    t.link("/r/plaindir", "/r/slink.git");
    t.link("/r/store/upstream.git", "/r/link-to-baregit");

    for detect in BOTH {
        assert_eq!(
            walk(&t, "/r", &options(detect, &[])),
            vec!["slink.git", "store/upstream.git"],
            "{detect:?}"
        );
    }
}

#[test]
fn an_untyped_tree_is_walked_like_a_typed_one() {
    let mut t = Tree::new();
    t.repo("/r", "github.com/a/x");
    t.dir("/r", "store/upstream.git");
    t.file("/r/worktree/.git");
    t.file("/r/stray");
    t.link("/r/github.com/a/x", "/r/mirror");
    t.link("nowhere", "/r/dangling");
    t.dir("/r", "plain/deeper");

    for detect in BOTH {
        let typed = walk_with(&t, "/r", &options(detect, &[]), FD_CAP, false).0;
        let untyped = walk_with(&t, "/r", &options(detect, &[]), FD_CAP, true).0;
        assert_eq!(sorted(&typed), sorted(&untyped), "{detect:?}");
        assert_eq!(
            sorted(&typed),
            vec!["github.com/a/x", "mirror", "store/upstream.git", "worktree"],
            "{detect:?}"
        );
    }
}

// What cannot be read.

#[test]
fn an_unreadable_directory_is_warned_about_and_skipped() {
    let mut t = Tree::new();
    t.repo("/r", "reachable");
    t.repo("/r", "locked/hidden");
    t.chmod("/r/locked", 0o000);

    for detect in BOTH {
        let (listing, warnings) = walk_with(&t, "/r", &options(detect, &[]), FD_CAP, false);
        assert_eq!(sorted(&listing), vec!["reachable"], "{detect:?}");
        assert_eq!(warnings, vec!["/r/locked: Permission denied"], "{detect:?}");
        assert!(listing.incomplete(), "{detect:?}");
    }
}

#[test]
fn a_searchable_but_unreadable_repository_is_listed_the_way_ghq_lists_it() {
    let mut t = Tree::new();
    t.repo("/r", "search-only-repo");
    t.repo("/r", "write-search-repo");
    t.dir("/r", "search-only-plain/unreachable");
    t.repo("/r", "normal");
    t.chmod("/r/search-only-repo", 0o111);
    t.chmod("/r/write-search-repo", 0o311);
    t.chmod("/r/search-only-plain", 0o111);

    for detect in BOTH {
        let (listing, warnings) = walk_with(&t, "/r", &options(detect, &[]), FD_CAP, false);
        assert_eq!(
            sorted(&listing),
            vec!["normal", "search-only-repo", "write-search-repo"],
            "{detect:?}: an unreadable repository is still a repository"
        );
        assert_eq!(warnings, vec!["/r/search-only-plain: Permission denied"], "{detect:?}");
    }
}

// The root itself.

#[test]
fn a_root_that_is_a_repository_prints_dot() {
    let mut t = Tree::new();
    t.dir("/r", ".git");
    t.repo("/r", "inner");

    for detect in BOTH {
        assert_eq!(walk(&t, "/r", &options(detect, &[])), vec!["."], "{detect:?}");
    }
}

#[test]
fn a_root_whose_name_ends_in_dot_git_prints_dot_without_being_read() {
    let mut t = Tree::new();
    t.repo("/rootbare.git", "inner");

    for detect in BOTH {
        let listing = walk_listing(&t, "/rootbare.git", &options(detect, &[]));
        assert_eq!(sorted(&listing), vec!["."], "{detect:?}");
        assert_eq!(listing.dirs_read(), 0, "{detect:?}");
    }
}

#[test]
fn a_missing_root_is_skipped_in_silence() {
    let t = Tree::new();
    let (listing, warnings) =
        walk_with(&t, "/not-created", &options(DetectStrategy::OpenScan, &[]), FD_CAP, false);
    assert!(listing.is_empty());
    assert_eq!(listing.dirs_read(), 0);
    assert!(warnings.is_empty());
}

#[test]
fn a_root_that_is_not_a_directory_yields_nothing() {
    let mut t = Tree::new();
    t.file("/a-file");
    assert!(walk_listing(&t, "/a-file", &options(DetectStrategy::OpenScan, &[])).is_empty());
}

#[test]
fn an_unreadable_root_is_skipped_with_a_warning() {
    let mut t = Tree::new();
    t.repo("/locked-root", "hidden");
    t.chmod("/locked-root", 0o000);

    let (listing, warnings) =
        walk_with(&t, "/locked-root", &options(DetectStrategy::OpenScan, &[]), FD_CAP, false);
    assert!(listing.is_empty());
    assert_eq!(warnings, vec!["/locked-root: Permission denied"]);
}

#[test]
fn a_root_that_cannot_be_asked_about_is_skipped_with_a_warning() {
    let step = walk_root(b"/r", Err(Errno::IO), false).expect("no NUL");
    assert!(matches!(step, RootStep::Warn(Errno::IO)));
}

#[test]
fn a_root_path_holding_an_interior_nul_is_the_one_error() {
    let err = walk_root(b"/tmp/interior\0nul", Err(Errno::NOENT), false)
        .expect_err("a path the OS cannot be asked about is a root-level failure");
    assert!(matches!(err, WalkError::InvalidRoot { .. }));
    assert!(err.message().contains("interior NUL"), "{}", err.message());
    assert_eq!(err.message(), "/tmp/interior\0nul: root path contains an interior NUL byte");
}

// Exclusions.

fn exclusion_fixture(t: &mut Tree) {
    t.repo("/r", "keep/repo");
    t.repo("/r", "skip/repo");
    t.dir("/r", "plain");
}

#[test]
fn an_excluded_directory_is_neither_read_nor_emitted() {
    let mut t = Tree::new();
    exclusion_fixture(&mut t);

    for (detect, unpruned, pruned) in
        [(DetectStrategy::OpenScan, 6, 4), (DetectStrategy::StatFirst, 4, 3)]
    {
        let all = walk_listing(&t, "/r", &options(detect, &[]));
        assert_eq!(sorted(&all), vec!["keep/repo", "skip/repo"], "{detect:?}");
        assert_eq!(all.dirs_read(), unpruned, "{detect:?}: baseline directory reads");
        assert_eq!(all.excluded(), 0);

        let some = walk_listing(&t, "/r", &options(detect, &["skip"]));
        assert_eq!(sorted(&some), vec!["keep/repo"], "{detect:?}");
        assert_eq!(some.dirs_read(), pruned, "{detect:?}: the subtree is never read");
        assert_eq!(some.excluded(), 1, "{detect:?}");
    }
}

#[test]
fn an_excluded_repository_directory_is_not_emitted() {
    let mut t = Tree::new();
    t.repo("/r", "github.com/zchee/scap");
    t.repo("/r", "github.com/zchee/hidden");

    for detect in BOTH {
        let listing = walk_listing(&t, "/r", &options(detect, &["github.com/zchee/hidden"]));
        assert_eq!(sorted(&listing), vec!["github.com/zchee/scap"], "{detect:?}");
        assert_eq!(listing.excluded(), 1, "{detect:?}");
    }
}

#[test]
fn patterns_are_anchored_at_the_root_and_case_sensitive() {
    let node_modules = Pattern::new("node_modules");
    assert!(node_modules.matches(b"node_modules"));
    assert!(!node_modules.matches(b"a/node_modules"), "a pattern is anchored at the root");
    assert!(!node_modules.matches(b"node_modules/x"), "it matches the directory, not its subtree");
    assert!(
        !Pattern::new("Node_Modules").matches(b"node_modules"),
        "git's matcher is case-sensitive"
    );

    assert!(Pattern::new("*/vendor").matches(b"a/vendor"));
    assert!(!Pattern::new("*/vendor").matches(b"a/b/vendor"));
    assert!(Pattern::new("**/vendor").matches(b"a/b/vendor"));

    assert!(!Pattern::new("foo//").matches(b"foo"));
}

// Scheduling.

fn wide_tree(t: &mut Tree) -> (usize, usize, usize) {
    for host in 0..8 {
        for owner in 0..8 {
            for n in 0..32 {
                let rel = format!("host{host}/owner{owner}/n{n:02}");
                if n % 4 == 0 {
                    t.repo("/r", &rel);
                } else {
                    t.dir("/r", &rel);
                }
            }
        }
    }
    let repos = 8 * 8 * 8;
    let open_reads = 1 + 8 + 64 + 8 * 8 * 32;
    (open_reads, open_reads - repos, repos)
}

#[test]
fn the_repository_set_does_not_depend_on_the_worker_count() {
    let mut t = Tree::new();
    let (open_reads, stat_reads, repos) = wide_tree(&mut t);

    for detect in BOTH {
        let expected_reads =
            if detect == DetectStrategy::OpenScan { open_reads } else { stat_reads };
        let mut baseline: Option<Vec<String>> = None;
        for threads in [1, 2, 4, 16] {
            let opts = WalkOptions { threads, exclude: Vec::new(), detect, record: false };
            let listing = walk_listing(&t, "/r", &opts);
            let found = sorted(&listing);

            assert_eq!(found.len(), repos, "{detect:?} at {threads} workers");
            assert_eq!(listing.dirs_read(), expected_reads, "{detect:?} at {threads} workers");
            assert_eq!(listing.excluded(), 0);

            match &baseline {
                None => baseline = Some(found),
                Some(first) => assert_eq!(&found, first, "{detect:?}: {threads} workers"),
            }
        }
    }
}

#[test]
fn the_edge_fixtures_survive_every_worker_count() {
    let mut t = Tree::new();
    t.repo("/r", "github.com/a/x");
    t.repo("/r", "plain/nested/repo");
    t.dir("/r", "store/upstream.git");
    t.file("/r/worktree/.git");
    t.link("/r/github.com/a/x", "/r/mirror");
    t.link("/r/plain", "/r/link-to-plaindir");
    t.link("/r/store/upstream.git", "/r/link-to-baregit");
    t.link("nowhere", "/r/dangling");
    t.link("/r", "/r/loop");

    let expected =
        vec!["github.com/a/x", "mirror", "plain/nested/repo", "store/upstream.git", "worktree"];
    for detect in BOTH {
        for threads in [1, 2, 4, 16] {
            let opts = WalkOptions { threads, exclude: Vec::new(), detect, record: false };
            assert_eq!(walk(&t, "/r", &opts), expected, "{detect:?} at {threads} workers");
        }
    }
}

#[test]
fn parse_threads_accepts_the_documented_range_and_falls_back_otherwise() {
    assert_eq!(parse_threads(Some(b"1")), 1);
    assert_eq!(parse_threads(Some(b"16")), 16);
    assert_eq!(parse_threads(Some(b"64")), MAX_THREADS);

    assert_eq!(parse_threads(None), DEFAULT_THREADS);
    assert_eq!(parse_threads(Some(b"")), DEFAULT_THREADS);
    assert_eq!(parse_threads(Some(b"0")), DEFAULT_THREADS);
    assert_eq!(parse_threads(Some(b"65")), DEFAULT_THREADS);
    assert_eq!(parse_threads(Some(b"-1")), DEFAULT_THREADS);
    assert_eq!(parse_threads(Some(b"4 ")), DEFAULT_THREADS);
    assert_eq!(parse_threads(Some(b"four")), DEFAULT_THREADS);
}

#[test]
fn a_thread_count_is_read_as_std_reads_one() {
    for value in ["+8", "++8", "007", "+", "18446744073709551617", "1_0", "4\u{660}", "\u{664}", "+0x1"] {
        let std = value.parse::<usize>().ok().filter(|n| (1..=MAX_THREADS).contains(n));
        assert_eq!(parse_threads(Some(value.as_bytes())), std.unwrap_or(DEFAULT_THREADS), "{value}");
    }
    assert_eq!(parse_threads(Some(b"+8")), 8);
    assert!(!threads_rejected(Some(b"+8")) && threads_rejected(Some(b"+")));
    assert_eq!(parse_threads(Some(b"\xff")), DEFAULT_THREADS);
}

#[test]
fn a_rejected_thread_count_says_so_rather_than_changing_nothing_silently() {
    for value in ["four", "0", "65"] {
        assert_eq!(parse_threads(Some(value.as_bytes())), DEFAULT_THREADS);
        assert!(threads_rejected(Some(value.as_bytes())), "{value:?} should warn");
    }
    assert!(!threads_rejected(Some(b"4")));
    assert!(!threads_rejected(Some(b"")));
    assert!(!threads_rejected(None));
}

#[test]
fn an_unset_variable_leaves_the_measured_default_in_place() {
    assert_eq!(parse_threads(None), DEFAULT_THREADS);
    assert_eq!(DEFAULT_THREADS, 4);
}

// The handle budget, the options and the detection switch.

#[test]
fn the_reopen_path_produces_the_same_listing_as_the_descriptor_path() {
    let mut t = Tree::new();
    t.repo("/r", "a/b/c/deep");
    t.repo("/r", "a/other");
    t.repo("/r", "x/y");

    for detect in BOTH {
        let opts = options(detect, &[]);
        let budgeted = walk_with(&t, "/r", &opts, 0, false).0;
        let normal = walk_listing(&t, "/r", &opts);
        assert_eq!(sorted(&budgeted), sorted(&normal), "{detect:?}");
        assert_eq!(budgeted.dirs_read(), normal.dirs_read(), "{detect:?}");
    }
}

#[test]
fn the_handle_budget_makes_no_difference() {
    let mut t = Tree::new();
    wide_tree(&mut t);
    for detect in BOTH {
        let opts = options(detect, &["host3", "**/owner5"]);
        let normal = walk_listing(&t, "/r", &opts);
        assert_eq!(normal.excluded(), 8);
        for cap in [0, 1, 7] {
            let budgeted = walk_with(&t, "/r", &opts, cap, false).0;
            assert_eq!(sorted(&budgeted), sorted(&normal), "{detect:?} at {cap}");
            assert_eq!(budgeted.dirs_read(), normal.dirs_read(), "{detect:?} at {cap}");
            assert_eq!(budgeted.excluded(), normal.excluded(), "{detect:?} at {cap}");
        }
    }
}

#[test]
fn every_path_is_listed_once_and_none_below_another() {
    let mut t = Tree::new();
    t.repo("/r", "a/x");
    t.repo("/r", "a/x/inner");
    t.repo("/r", "a/xy");
    t.dir("/r", "b/bare.git/deep.git");
    t.link("/r/a/x", "/r/c");
    for detect in BOTH {
        let found = walk(&t, "/r", &options(detect, &[]));
        assert_eq!(found, ["a/x", "a/xy", "b/bare.git", "c"], "{detect:?}");
        for p in &found {
            assert_eq!(found.iter().filter(|q| *q == p).count(), 1, "{detect:?}: {p}");
            assert!(!found.iter().any(|q| q.starts_with(&format!("{p}/"))), "{detect:?}: {p}");
        }
    }
}

#[test]
fn an_exclusion_takes_out_what_it_matches_and_what_lies_below() {
    let mut t = Tree::new();
    wide_tree(&mut t);
    t.repo("/r", "host1/owner1");
    let matches = |patterns: &[Pattern], path: &str| {
        path.match_indices('/')
            .map(|(i, _)| &path[..i])
            .chain([path])
            .any(|p| patterns.iter().any(|pattern| pattern.matches(p.as_bytes())))
    };
    for detect in BOTH {
        let all = walk(&t, "/r", &options(detect, &[]));
        for spelled in [vec!["host2"], vec!["*/owner1", "**/n0?"], vec!["host1/owner1/n00"]] {
            let patterns: Vec<Pattern> = spelled.iter().map(|p| Pattern::new(p)).collect();
            let kept: Vec<String> =
                all.iter().filter(|p| !matches(&patterns, p)).cloned().collect();
            assert!(kept.len() < all.len() || spelled[0].ends_with("n00"));
            assert_eq!(walk(&t, "/r", &options(detect, &spelled)), kept, "{detect:?} {spelled:?}");
        }
    }
}

#[test]
fn both_strategies_agree_on_the_repository_set_and_disagree_on_the_reads() {
    let mut t = Tree::new();
    for i in 0..8 {
        t.repo("/r", &format!("host/owner/repo{i}"));
    }

    let scan = walk_listing(&t, "/r", &options(DetectStrategy::OpenScan, &[]));
    let stat = walk_listing(&t, "/r", &options(DetectStrategy::StatFirst, &[]));

    assert_eq!(sorted(&scan), sorted(&stat));
    assert_eq!(scan.dirs_read(), 11, "root, host, owner and the 8 repositories");
    assert_eq!(stat.dirs_read(), 3, "root, host and owner; no repository is opened");
}

#[test]
fn parse_detect_strategy_reads_the_two_documented_values() {
    assert_eq!(parse_detect_strategy(Some(b"open")), DetectStrategy::OpenScan);
    assert_eq!(parse_detect_strategy(Some(b"stat")), DetectStrategy::StatFirst);

    assert_eq!(parse_detect_strategy(None), DetectStrategy::default());
    assert_eq!(parse_detect_strategy(Some(b"")), DetectStrategy::default());
    assert_eq!(parse_detect_strategy(Some(b"OPEN")), DetectStrategy::default());
    assert_eq!(parse_detect_strategy(Some(b"both")), DetectStrategy::default());

    assert!(detect_rejected(Some(b"OPEN")));
    assert!(!detect_rejected(Some(b"stat")));
    assert!(!detect_rejected(Some(b"")));
    assert!(!detect_rejected(None));
}

#[test]
fn walk_options_take_their_strategy_from_the_environment() {
    for value in [None, Some(b"open".as_slice()), Some(b"stat".as_slice())] {
        let opts = WalkOptions::new(2, vec![Pattern::new("x")], value);
        assert_eq!(opts.threads, 2);
        assert_eq!(opts.exclude.len(), 1);
        assert_eq!(opts.exclude[0].as_bytes(), b"x");
        assert_eq!(opts.detect, parse_detect_strategy(value));
        assert!(!opts.record);
    }
}

#[test]
fn an_empty_root_is_read_but_yields_nothing() {
    let mut t = Tree::new();
    t.mkdir("/r");
    let listing = walk_listing(&t, "/r", &options(DetectStrategy::OpenScan, &[]));
    assert!(listing.is_empty());
    assert_eq!(listing.len(), 0);
    assert_eq!(listing.dirs_read(), 1, "the root itself is read");
    assert_eq!(listing.excluded(), 0);
    assert!(listing.repos().is_empty());
}

#[test]
fn a_modification_time_saturates() {
    assert_eq!(mtime_ns(1, 5), 1_000_000_005);
    assert_eq!(mtime_ns(-1, 5), -999_999_995);
    assert_eq!(mtime_ns(i64::MAX, 0), i64::MAX);
    assert_eq!(mtime_ns(i64::MIN, 0), i64::MIN);
}

// The arena.

#[test]
fn a_fresh_arena_is_empty() {
    let arena = Arena::default();
    assert!(arena.is_empty(), "a fresh arena holds no repository");
    assert_eq!(arena.len(), 0);
    assert!(arena.iter().is_empty());
}

#[test]
fn push_keeps_every_path_addressable_at_its_own_offset() {
    let mut arena = Arena::default();
    arena.push(b"github.com/a/one");
    arena.push(b"github.com/a/two");
    arena.push(b".");

    assert_eq!(arena.len(), 3);
    assert!(!arena.is_empty());
    assert_eq!(
        arena.iter(),
        vec![&b"github.com/a/one"[..], &b"github.com/a/two"[..], &b"."[..]]
    );
    assert_eq!(arena.get(1), b"github.com/a/two");
}

#[test]
fn push_preserves_bytes_that_are_not_utf8() {
    let mut arena = Arena::default();
    arena.push(b"host/\xff\xfe/repo");
    arena.push("ホスト/ユーザ 名/レポ".as_bytes());

    assert_eq!(
        arena.iter(),
        vec![&b"host/\xff\xfe/repo"[..], "ホスト/ユーザ 名/レポ".as_bytes()]
    );
}

#[test]
fn iter_yields_paths_in_push_order_and_reports_its_length() {
    let mut arena = Arena::default();
    for path in [&b"b"[..], b"a", b"c"] {
        arena.push(path);
    }
    assert_eq!(arena.iter().len(), 3);
    assert_eq!(arena.iter(), vec![&b"b"[..], b"a", b"c"]);
}

#[test]
fn merging_arenas_appends() {
    let mut one = Arena::default();
    one.push(b"a");
    let mut two = Arena::default();
    two.push(b"bb");
    two.push(b"c");
    one.merge(&two);
    one.push(b"d");
    assert_eq!(one.iter(), vec![&b"a"[..], b"bb", b"c", b"d"]);
}

// Entries.

#[test]
fn only_a_genuinely_untyped_entry_classifies_as_unknown() {
    assert_eq!(Kind::from_file_type(FileType::Directory), Kind::Dir);
    assert_eq!(Kind::from_file_type(FileType::Symlink), Kind::Symlink);
    assert_eq!(Kind::from_file_type(FileType::Unknown), Kind::Unknown);

    for known in [
        FileType::RegularFile,
        FileType::Fifo,
        FileType::Socket,
        FileType::CharacterDevice,
        FileType::BlockDevice,
    ] {
        assert_eq!(Kind::from_file_type(known), Kind::Other, "{known:?} is typed");
    }
}

#[test]
fn a_stat_mode_classifies_what_readdir_could_not_type() {
    assert_eq!(Kind::from_raw_mode(0o040755), Kind::Dir);
    assert_eq!(Kind::from_raw_mode(0o100644), Kind::Other);
    assert_eq!(Kind::from_raw_mode(0o120777), Kind::Symlink);
    for other in [0o010644, 0o140755, 0o020620, 0o060660] {
        assert_eq!(Kind::from_raw_mode(other), Kind::Other);
    }
    assert_eq!(Kind::from_raw_mode(0o000755), Kind::Unknown);
}

#[test]
fn entry_buf_drops_dot_and_dotdot_on_the_way_in() {
    let mut buf = EntryBuf::default();
    buf.push(b".", Kind::Dir);
    buf.push(b"..", Kind::Dir);
    buf.push(b".git", Kind::Dir);
    buf.push(b".hidden", Kind::Other);

    assert_eq!(buf.len(), 2);
    assert_eq!(buf.name(0), b".git");
    assert_eq!(buf.name(1), b".hidden");
}

#[test]
fn entry_buf_addresses_each_name_and_kind_by_index() {
    let mut buf = EntryBuf::default();
    buf.push(b"a", Kind::Dir);
    buf.push(b"bb", Kind::Symlink);
    buf.push(b"\xff\xfe", Kind::Unknown);
    buf.push(b"cccc", Kind::Other);

    assert_eq!(buf.len(), 4);
    assert_eq!(
        (0..buf.len()).map(|i| buf.name(i)).collect::<Vec<_>>(),
        vec![&b"a"[..], b"bb", b"\xff\xfe", b"cccc"],
        "concatenated names must stay individually addressable"
    );
    assert_eq!(
        (0..buf.len()).map(|i| buf.kind(i)).collect::<Vec<_>>(),
        vec![Kind::Dir, Kind::Symlink, Kind::Unknown, Kind::Other]
    );
}

#[test]
fn entry_buf_clear_keeps_no_entry_from_the_previous_directory() {
    let mut buf = EntryBuf::default();
    buf.push(b"stale", Kind::Dir);
    buf.clear();
    buf.push(b"fresh", Kind::Dir);

    assert_eq!(buf.len(), 1, "a reused buffer must not leak the last directory's entries");
    assert_eq!(buf.name(0), b"fresh");
}

#[test]
fn join_rel_separates_with_exactly_one_slash() {
    let mut sink = Vec::new();

    join_rel(&mut sink, b"", b"github.com");
    assert_eq!(sink, b"github.com");

    join_rel(&mut sink, b"github.com/zchee", b"scap");
    assert_eq!(sink, b"github.com/zchee/scap");

    join_rel(&mut sink, b"a", b"b");
    assert_eq!(sink, b"a/b", "the sink is cleared before each join");
}

#[test]
fn out_emits_a_root_repository_as_dot() {
    let mut out = Out::default();
    out.emit(b"");
    out.emit(b"github.com/a/b");

    assert_eq!(out.arena.iter(), vec![&b"."[..], b"github.com/a/b"]);
}

#[test]
fn a_walker_reads_a_tree_and_hands_back_what_it_found() {
    let mut t = Tree::new();
    t.repo("/r", "host/owner/repo");
    t.dir("/r", "host/owner/plain");
    t.file("/r/host/stray");

    let mut reader = Reader::new(&t, "/r", &options(DetectStrategy::OpenScan, &[]), FD_CAP);
    let mut out = Out::default();
    let mut queue = Vec::new();
    reader.read("/r", b"", &mut out, &mut queue);
    while let Some(job) = queue.pop() {
        assert!(job.handle.is_some(), "{:?} should have been opened by its parent", job.rel);
        reader.run(job, &mut out, &mut queue);
    }

    assert_eq!(out.arena.iter(), vec![&b"host/owner/repo"[..]]);
    assert_eq!(out.dirs_read, 5, "root, host, host/owner, host/owner/plain and the repository");
    assert_eq!(out.excluded, 0);
    assert_eq!(reader.live, 0, "every queued handle is handed back");
}

#[test]
fn a_scan_asks_only_what_it_must() {
    let asked = |detect, denied: bool| {
        let mut buf = EntryBuf::default();
        for (name, kind) in [
            ("skip", Kind::Dir),
            ("bare.git", Kind::Dir),
            ("a", Kind::Dir),
            ("l", Kind::Symlink),
            ("l.git", Kind::Symlink),
            ("skip2", Kind::Symlink),
            ("f", Kind::Other),
            ("u", Kind::Unknown),
            ("skip3", Kind::Unknown),
        ] {
            buf.push(name.as_bytes(), kind);
        }
        let rules = Rules { exclude: vec![Pattern::new("skip*")], detect };
        let mut scan = Scan::begin(b"", buf, &rules);
        let mut all = Vec::new();
        let mut request = scan.ask();
        while request != Request::Done {
            all.push(request);
            let reply = match request {
                Request::StatGit | Request::StatEntryGit(_) => Reply::Git(false),
                Request::Lstat(_) => Reply::Lstat(Some(Kind::Dir)),
                Request::StatTarget(_) => Reply::Target(Ok(true)),
                Request::Open(_) if denied => Reply::Open(Opened::Failed(Errno::ACCESS)),
                _ => Reply::Open(Opened::OverBudget),
            };
            request = scan.next(reply, &rules);
        }
        let (_, buf) = scan.finish();
        assert_eq!(buf.len(), 9, "the entries come back");
        all
    };
    assert_eq!(
        asked(DetectStrategy::OpenScan, false),
        [
            Request::Open(2),
            Request::StatTarget(3),
            Request::StatEntryGit(3),
            Request::StatTarget(4),
            Request::Lstat(7),
            Request::Open(7),
            Request::Lstat(8),
        ]
    );
    assert_eq!(
        asked(DetectStrategy::StatFirst, true),
        [
            Request::StatEntryGit(2),
            Request::Open(2),
            Request::StatEntryGit(2),
            Request::StatTarget(3),
            Request::StatEntryGit(3),
            Request::StatTarget(4),
            Request::Lstat(7),
            Request::StatEntryGit(7),
            Request::Open(7),
            Request::StatEntryGit(7),
            Request::Lstat(8),
        ]
    );
}

#[test]
fn only_a_subtree_that_exists_and_went_unread_shortens_the_listing() {
    for benign in [Errno::NOENT, Errno::NOTDIR, Errno::LOOP] {
        assert!(!drops_a_subtree(benign), "{benign:?}: the path is not there to read");
    }
    for lost in [Errno::ACCESS, Errno::PERM, Errno::IO, Errno::MFILE, Errno::NFILE] {
        assert!(drops_a_subtree(lost), "{lost:?}: a subtree that exists went unread");
    }
}

// Workers.

fn plain_options(threads: usize) -> WalkOptions {
    WalkOptions { threads, exclude: Vec::new(), detect: DetectStrategy::OpenScan, record: false }
}

#[test]
fn a_request_for_no_threads_still_walks() {
    let mut t = Tree::new();
    t.repo("/r", "host/owner/one");
    t.repo("/r", "host/owner/two");
    assert_eq!(walk(&t, "/r", &plain_options(0)), vec!["host/owner/one", "host/owner/two"]);
    assert_eq!(clamp_threads(0), 1);
}

#[test]
fn a_request_for_more_threads_than_the_maximum_is_capped() {
    let mut t = Tree::new();
    t.repo("/r", "host/owner/one");
    assert_eq!(walk(&t, "/r", &plain_options(MAX_THREADS * 4)), vec!["host/owner/one"]);
    assert_eq!(clamp_threads(MAX_THREADS * 4), MAX_THREADS);
    assert_eq!(clamp_threads(5), 5);
}

#[test]
fn every_worker_returns_its_own_output_and_the_union_is_the_walk() {
    let mut t = Tree::new();
    for owner in 0..4 {
        for n in 0..8 {
            t.repo("/r", &format!("host/owner{owner}/repo{n}"));
        }
    }
    let mut expected: Vec<String> =
        (0..4).flat_map(|o| (0..8).map(move |n| format!("host/owner{o}/repo{n}"))).collect();
    expected.sort_unstable();

    for fd_cap in [FD_CAP, 2] {
        for threads in [1, 2, 4, 16] {
            let listing = walk_with(&t, "/r", &plain_options(threads), fd_cap, false).0;
            assert_eq!(sorted(&listing), expected, "fd_cap {fd_cap} at {threads} workers");
            assert_eq!(listing.dirs_read(), 1 + 1 + 4 + 32, "fd_cap {fd_cap} at {threads} workers");
        }
    }
}

#[test]
fn an_idle_worker_spins_then_parks_then_finishes() {
    assert_eq!(idle(0, 0), Idle::Finish);
    assert_eq!(idle(0, 1), Idle::Spin(1));
    assert_eq!(idle(SPINS_BEFORE_PARK - 2, 9), Idle::Spin(SPINS_BEFORE_PARK - 1));
    assert_eq!(idle(SPINS_BEFORE_PARK - 1, 9), Idle::Park);
    assert_eq!(idle(u32::MAX, 0), Idle::Finish);
}

#[test]
fn a_worker_reads_what_it_finds_and_stops_when_nothing_is_outstanding() {
    assert_eq!(work(Work::Look(9), true, 1), Work::Read);
    assert_eq!(work(Work::Read, false, 0), Work::Look(0));
    assert_eq!(work(Work::Look(0), false, 1), Work::Look(1));
    assert_eq!(work(Work::Look(SPINS_BEFORE_PARK - 1), false, 1), Work::Park);
    assert_eq!(work(Work::Park, false, 1), Work::Sleep);
    assert_eq!(work(Work::Park, false, 0), Work::Finish);
    assert_eq!(work(Work::Sleep, false, 0), Work::Look(0));
    assert_eq!(work(Work::Look(0), false, 0), Work::Finish);
    assert_eq!(work(Work::Finish, true, 1), Work::Finish);
    assert!(was_last(1));
    assert!(!was_last(2));
}

#[test]
fn a_message_names_the_root_it_is_about() {
    assert_eq!(abs(b"/r", b""), "/r");
    assert_eq!(abs(b"/r", b"a/\xff"), "/r/a/\u{fffd}");
    for refused in [Errno::ACCESS, Errno::PERM] {
        assert_eq!(
            report_io_error(b"/r", b"a", refused).as_deref(),
            Some("/r/a: Permission denied")
        );
    }
    assert_eq!(report_io_error(b"/r", b"a", Errno::IO), None);
    assert_eq!(
        report_reopen_error(b"/r", b"a", Errno::MFILE, "Too many open files").as_deref(),
        Some("/r/a: Too many open files; subtree skipped")
    );
    assert_eq!(
        report_reopen_error(b"/r", b"a", Errno::PERM, "x").as_deref(),
        Some("/r/a: Permission denied")
    );
    assert_eq!(report_reopen_error(b"/r", b"a", Errno::NOENT, "x"), None);
    assert_eq!(warn_unwalkable_root(b"/r\xff", Errno::IO, "bad disk"), "/r\u{fffd}: bad disk");
    assert_eq!(warn_unwalkable_root(b"/r", Errno::PERM, "x"), "/r: Permission denied");
}

#[test]
fn a_worker_looks_everywhere_but_twice_nowhere() {
    assert_eq!(
        sources(1, 4),
        vec![
            Source::Own,
            Source::Seed,
            Source::Worker(0),
            Source::Worker(2),
            Source::Worker(3)
        ]
    );
    assert_eq!(sources(0, 1), vec![Source::Own, Source::Seed]);
}

// The index: its file format.

fn index_of(tree: &Tree, root: &str, opts: &WalkOptions) -> Index {
    let listing = walk_listing(tree, root, opts);
    let (dev, ino) = tree.identity(root).expect("a root");
    build(root.as_bytes(), &exclude_patterns(opts), listing.records(), dev, ino, tree.clock).expect("build")
}

#[test]
fn an_encoded_index_decodes_back_to_itself() {
    for detect in BOTH {
        let mut t = Tree::new();
        t.repo("/r", "github.com/a/x");
        t.repo("/r", "github.com/b/y");
        t.dir("/r", "github.com/b/empty");
        t.repo("/r", "store/upstream.git");
        t.link("/r/github.com/a/x", "/r/mirror");

        let index = index_of(&t, "/r", &recording(detect, &["never/matches"]));
        assert!(index.entries.len() > 5, "{detect:?}: the fixture has entries to encode");
        assert_eq!(decode(&encode(&index)), Some(index.clone()), "{detect:?}");
    }
}

#[test]
fn a_path_that_is_not_utf8_survives_the_round_trip() {
    let index = Index {
        root: b"/roots/\xff\xfe".to_vec(),
        dev: 7,
        ino: 11,
        written_ns: 1_700_000_000_000_000_000,
        exclude: vec![b"vendor/\x80".to_vec()],
        entries: vec![
            Entry { rel: Vec::new(), mtime_ns: Some(1), children: vec![1] },
            Entry { rel: b"\xff\xfe/x".to_vec(), mtime_ns: None, children: Vec::new() },
        ],
    };
    assert_eq!(decode(&encode(&index)), Some(index));
}

#[test]
fn negative_times_survive_the_round_trip() {
    for ns in [i64::MIN, -1, 0, 1, i64::MAX] {
        let index = Index {
            root: b"/r".to_vec(),
            dev: u64::MAX,
            ino: 0,
            written_ns: ns,
            exclude: Vec::new(),
            entries: vec![Entry { rel: Vec::new(), mtime_ns: Some(ns), children: Vec::new() }],
        };
        assert_eq!(decode(&encode(&index)), Some(index));
    }
}

#[test]
fn the_bytes_of_an_index_are_these() {
    let index = Index {
        root: b"/r".to_vec(),
        dev: 1,
        ino: 2,
        written_ns: 3,
        exclude: vec![b"v".to_vec()],
        entries: vec![
            Entry { rel: Vec::new(), mtime_ns: Some(-2), children: vec![1] },
            Entry { rel: b"a".to_vec(), mtime_ns: None, children: Vec::new() },
        ],
    };
    let mut want = Vec::new();
    want.extend_from_slice(&MAGIC);
    want.extend_from_slice(&VERSION.to_le_bytes());
    want.extend_from_slice(b"\x02\0\0\0/r");
    want.extend_from_slice(&1u64.to_le_bytes());
    want.extend_from_slice(&2u64.to_le_bytes());
    want.extend_from_slice(&3i64.to_le_bytes());
    want.extend_from_slice(b"\x01\0\0\0\x01\0\0\0v");
    want.extend_from_slice(b"\x02\0\0\0");
    want.extend_from_slice(b"\x01\0\0\0\0");
    want.extend_from_slice(&(-2i64).to_le_bytes());
    want.extend_from_slice(b"\x01\0\0\0\x01\0\0\0");
    want.extend_from_slice(b"\0\x01\0\0\0a");
    assert_eq!(encode(&index), want);
}

#[test]
fn every_corruption_reads_as_no_index_rather_than_as_a_failure() {
    let mut t = Tree::new();
    t.repo("/r", "github.com/a/x");
    t.dir("/r", "github.com/b");
    let good = encode(&index_of(&t, "/r", &recording(DetectStrategy::StatFirst, &[])));

    assert!(decode(&good).is_some(), "the fixture encodes to something decodable");
    assert_eq!(decode(&[]), None, "an empty file");
    assert_eq!(decode(&good[..good.len() - 1]), None, "a truncated file");
    let mut trailing = good.clone();
    trailing.push(0);
    assert_eq!(decode(&trailing), None, "trailing bytes past the last entry");

    let mut bad_magic = good.clone();
    bad_magic[0] ^= 0xff;
    assert_eq!(decode(&bad_magic), None, "a different magic");

    let mut bad_version = good.clone();
    bad_version[MAGIC.len()..MAGIC.len() + 4].copy_from_slice(&(VERSION + 1).to_le_bytes());
    assert_eq!(decode(&bad_version), None, "a file from another version");
}

#[test]
fn a_forged_entry_count_is_rejected_before_it_is_allocated() {
    let mut bytes = Vec::new();
    bytes.extend_from_slice(&MAGIC);
    bytes.extend_from_slice(&VERSION.to_le_bytes());
    push_bytes(&mut bytes, b"/roots");
    bytes.extend_from_slice(&1u64.to_le_bytes());
    bytes.extend_from_slice(&2u64.to_le_bytes());
    bytes.extend_from_slice(&3i64.to_le_bytes());
    push_len(&mut bytes, 0);
    bytes.extend_from_slice(&u32::MAX.to_le_bytes());
    assert_eq!(decode(&bytes), None);
}

#[test]
fn a_child_edge_that_could_cycle_or_escape_is_rejected() {
    let root_entry = || Entry { rel: Vec::new(), mtime_ns: Some(1), children: Vec::new() };
    let child = |rel: &[u8]| Entry { rel: rel.to_vec(), mtime_ns: Some(2), children: Vec::new() };
    let template = Index {
        root: b"/roots".to_vec(),
        dev: 1,
        ino: 2,
        written_ns: 3,
        exclude: Vec::new(),
        entries: Vec::new(),
    };

    let mut backward = template.clone();
    backward.entries = vec![root_entry(), child(b"a")];
    backward.entries[1].children = vec![0];
    assert_eq!(decode(&encode(&backward)), None, "an edge pointing back at the root");

    let mut self_edge = template.clone();
    self_edge.entries = vec![root_entry(), child(b"a")];
    self_edge.entries[1].children = vec![1];
    assert_eq!(decode(&encode(&self_edge)), None, "an edge pointing at itself");

    let mut out_of_range = template.clone();
    out_of_range.entries = vec![root_entry(), child(b"a")];
    out_of_range.entries[0].children = vec![1, 9];
    assert_eq!(decode(&encode(&out_of_range)), None, "an edge past the last entry");

    let mut twice_claimed = template.clone();
    twice_claimed.entries = vec![root_entry(), child(b"a"), child(b"b")];
    twice_claimed.entries[0].children = vec![1, 2];
    twice_claimed.entries[1].children = vec![2];
    assert_eq!(decode(&encode(&twice_claimed)), None, "an entry claimed by two parents");

    let mut unreachable = template.clone();
    unreachable.entries = vec![root_entry(), child(b"a")];
    assert_eq!(decode(&encode(&unreachable)), None, "an entry no parent claims");

    let mut rootless = template;
    rootless.entries = vec![child(b"a")];
    assert_eq!(decode(&encode(&rootless)), None, "a file whose first entry is not the root");
}

#[test]
fn a_path_that_could_escape_the_root_is_rejected() {
    let with_rel = |rel: &[u8]| Index {
        root: b"/roots".to_vec(),
        dev: 1,
        ino: 2,
        written_ns: 3,
        exclude: Vec::new(),
        entries: vec![
            Entry { rel: Vec::new(), mtime_ns: Some(1), children: vec![1] },
            Entry { rel: rel.to_vec(), mtime_ns: None, children: Vec::new() },
        ],
    };

    for escaping in [
        b"/etc".as_slice(),
        b"/".as_slice(),
        b"..".as_slice(),
        b"../etc".as_slice(),
        b"a/../../etc".as_slice(),
        b"a/..".as_slice(),
        b".".as_slice(),
        b"a/.".as_slice(),
        b"./a".as_slice(),
        b"a//b".as_slice(),
        b"a/".as_slice(),
        b"\0".as_slice(),
        b"a\0b".as_slice(),
    ] {
        assert_eq!(
            decode(&encode(&with_rel(escaping))),
            None,
            "a path the walk could never have produced: {:?}",
            String::from_utf8_lossy(escaping)
        );
    }

    for ordinary in [
        b"a".as_slice(),
        b"a/b".as_slice(),
        b"github.com/zchee/scap".as_slice(),
        b".config".as_slice(),
        b"a/..b".as_slice(),
        b"a/b..".as_slice(),
        b"...".as_slice(),
        b"\xff\xfe".as_slice(),
    ] {
        assert!(
            decode(&encode(&with_rel(ordinary))).is_some(),
            "a path the walk does produce: {:?}",
            String::from_utf8_lossy(ordinary)
        );
    }

    assert!(is_safe_rel(b""), "the root itself");
}

#[test]
fn only_the_root_has_an_empty_path() {
    let index = |rel: &[u8]| Index {
        root: b"/roots".to_vec(),
        dev: 1,
        ino: 2,
        written_ns: 3,
        exclude: Vec::new(),
        entries: vec![
            Entry { rel: Vec::new(), mtime_ns: Some(1), children: vec![1] },
            Entry { rel: rel.to_vec(), mtime_ns: None, children: Vec::new() },
        ],
    };
    assert_eq!(decode(&encode(&index(b""))), None);
    assert_eq!(decode(&encode(&index(b"a"))), Some(index(b"a")));
    assert_ne!(encode(&index(b"a")), encode(&index(b"b")), "no two have one file");
}

#[test]
fn a_directory_that_is_a_repository_is_recorded_once() {
    for detect in BOTH {
        let mut t = Tree::new();
        t.dir("/roots", ".git");
        t.repo("/roots", "inner");
        let index = index_of(&t, "/roots", &recording(detect, &[]));

        assert_eq!(index.entries.len(), 1, "{detect:?}: a repository root has no children");
        assert!(index.entries[0].is_repo(), "{detect:?}: and it is a repository, not a directory");
    }
}

// The index: validation.

fn probes_of(tree: &Tree, root: &str, index: &Index) -> Vec<Probe> {
    let root_name = file_name(root.as_bytes()).unwrap_or_default();
    let path = |rel: &[u8]| at(root, &String::from_utf8_lossy(rel));
    index
        .entries
        .iter()
        .map(|entry| match probe(entry, &root_name) {
            ProbeRequest::Known(probe) => probe,
            ProbeRequest::Stat(rel) => probe_repo(tree.stat(&path(&rel), true).is_ok()),
            ProbeRequest::Lstat(rel) => {
                let path = path(&rel);
                probe_dir(tree.stat(&path, false).ok().map(|mode| {
                    let mtime = tree.resolve(&path, false).ok().and_then(|at| tree.mtime(&at));
                    (mode, mtime.unwrap_or(0))
                }))
            }
        })
        .collect()
}

/// A directory of index files.
struct Disk {
    files: BTreeMap<Vec<u8>, Vec<u8>>,
    writable: bool,
}

impl Disk {
    fn new() -> Self {
        Disk { files: BTreeMap::new(), writable: true }
    }

    fn cached(&self, cache: &Cache, tree: &Tree, root: &str, opts: &WalkOptions) -> Option<RootListing> {
        let path = cache.path_for(root.as_bytes())?;
        let exclude = exclude_patterns(opts);
        let stage = Stage::Opened {
            file: self.files.get(&path).map(Vec::as_slice),
            identity: tree.identity(root),
        };
        let index = match cache.list_root(root.as_bytes(), &exclude, stage) {
            ListStep::Probe(index) => index,
            ListStep::Walk => return None,
            ListStep::Rewalk(_) => panic!("nothing was probed yet"),
        };
        let probes = probes_of(tree, root, &index);
        let stage = Stage::Probed { index: &index, probes: &probes };
        let outcome = match cache.list_root(root.as_bytes(), &exclude, stage) {
            ListStep::Rewalk(outcome) => outcome,
            ListStep::Walk => return None,
            ListStep::Probe(_) => panic!("it was probed already"),
        };
        let mut reader = Reader::new(tree, root, opts, FD_CAP);
        let mut out = Out::default();
        out.record = true;
        let mut queue = Vec::new();
        for rel in &outcome.stale {
            queue.push(Job { rel: rel.clone(), handle: None });
        }
        out = reader.drain(out, queue, true, 2);
        Some(merged(outcome.fresh, RootListing::from_out(out)))
    }

    fn store(&mut self, cache: &Cache, tree: &Tree, root: &str, opts: &WalkOptions, listing: &RootListing) {
        let bytes = cache.store_if_complete(
            root.as_bytes(),
            &exclude_patterns(opts),
            listing,
            tree.identity(root),
            tree.clock,
        );
        if let (Some(bytes), true) = (bytes, self.writable) {
            self.files.insert(cache.path_for(root.as_bytes()).expect("a path"), bytes);
        }
    }

    fn list(&mut self, cache: &Cache, tree: &Tree, root: &str, opts: &WalkOptions) -> RootListing {
        let listing = match self.cached(cache, tree, root, opts) {
            Some(listing) => listing,
            None => walk_listing(tree, root, opts),
        };
        self.store(cache, tree, root, opts, &listing);
        listing
    }

    fn check(&mut self, cache: &Cache, tree: &Tree, root: &str, opts: &WalkOptions) -> (RootListing, bool) {
        let cached = self.cached(cache, tree, root, opts);
        let fresh = walk_listing(tree, root, opts);
        self.store(cache, tree, root, opts, &fresh);
        let differs = check_root(cached.as_ref(), &fresh).is_some();
        (fresh, differs)
    }
}

fn stat_first(exclude: &[&str]) -> WalkOptions {
    recording(DetectStrategy::StatFirst, exclude)
}

fn cache() -> Cache {
    Cache::in_dir(b"/cache".to_vec())
}

#[test]
fn an_entry_inside_the_racy_window_is_treated_as_changed() {
    let written = 1_700_000_000_000_000_000i64;
    assert!(is_racy(written, written), "an mtime equal to the write time");
    assert!(is_racy(written + 1, written), "an mtime after the write time");
    assert!(is_racy(written - RACY_WINDOW_NS + 1, written), "just inside the window");
    assert!(!is_racy(written - RACY_WINDOW_NS, written), "exactly the window's edge");
    assert!(!is_racy(written - RACY_WINDOW_NS - 1, written), "outside the window");
}

#[test]
fn a_racy_directory_is_re_walked_even_though_its_mtime_matches() {
    let mut t = Tree::new();
    t.repo("/tmp/roots", "github.com/a/x");
    t.dir("/tmp/roots", "github.com/b");
    t.backdate("/tmp/roots");

    let mut index = index_of(&t, "/tmp/roots", &stat_first(&[]));
    let probes = probes_of(&t, "/tmp/roots", &index);

    let settled = walk_index(&index, &probes);
    assert_eq!(settled.racy, 0, "an index written long after the tree settled");
    assert!(settled.stale.is_empty(), "so every entry validates");
    assert_eq!(settled.hits, index.entries.len(), "and every entry is a hit");

    index.written_ns = SETTLED;
    let racy = walk_index(&index, &probes);
    assert!(racy.racy > 0, "an index written while the tree was still moving");
    assert!(!racy.stale.is_empty(), "every racy entry goes back to the walker");
}

#[test]
fn nothing_below_a_directory_that_moved_is_believed() {
    let mut t = Tree::new();
    t.repo("/r", "moved/inside/x");
    t.repo("/r", "kept/y");
    t.backdate("/r");
    let index = index_of(&t, "/r", &stat_first(&[]));
    t.touch("/r/moved");
    let probes = probes_of(&t, "/r", &index);
    let out = walk_index(&index, &probes);
    assert_eq!(out.stale, vec![b"moved".to_vec()]);
    let mut fresh: Vec<&[u8]> = out.fresh.iter().map(|r| r.rel()).collect();
    fresh.sort_unstable();
    assert_eq!(fresh, vec![b"".as_slice(), b"kept", b"kept/y"]);
}

#[test]
fn an_index_written_for_another_root_is_never_believed() {
    let mut t = Tree::new();
    t.repo("/tmp/roots", "github.com/a/x");
    let index = index_of(&t, "/tmp/roots", &stat_first(&[]));
    let (dev, ino) = t.identity("/tmp/roots").expect("a root");
    let none = Vec::new();
    assert!(describes(&index, b"/tmp/roots", dev, ino, &none), "the index it was just built from");

    assert!(!describes(&index, b"/tmp/elsewhere", dev, ino, &none), "a different root path");

    let mut moved = index.clone();
    moved.ino ^= 1;
    assert!(!describes(&moved, b"/tmp/roots", dev, ino, &none), "another inode");
    let mut remounted = index.clone();
    remounted.dev ^= 1;
    assert!(!describes(&remounted, b"/tmp/roots", dev, ino, &none), "another device");

    assert!(
        !describes(&index, b"/tmp/roots", dev, ino, &vec![b"vendor".to_vec()]),
        "a run whose exclusion set gained a pattern the index never applied"
    );
}

#[test]
fn a_root_recreated_in_place_invalidates_the_whole_index() {
    let mut t = Tree::new();
    t.repo("/tmp/roots", "github.com/a/x");
    t.backdate("/tmp/roots");
    let opts = stat_first(&[]);
    let mut disk = Disk::new();

    assert_eq!(sorted(&disk.list(&cache(), &t, "/tmp/roots", &opts)), ["github.com/a/x"]);

    t.rename("/tmp/roots", "/tmp/moved");
    t.repo("/tmp/roots", "github.com/b/y");
    t.backdate("/tmp/roots");
    assert_eq!(
        sorted(&disk.list(&cache(), &t, "/tmp/roots", &opts)),
        ["github.com/b/y"],
        "the index cannot outlive the directory it described"
    );
}

// The cached listing.

#[test]
fn a_warm_index_answers_without_reading_a_single_directory() {
    for detect in BOTH {
        let mut t = Tree::new();
        t.repo("/roots", "github.com/a/x");
        t.repo("/roots", "github.com/b/y");
        t.repo("/roots", "store/upstream.git");
        t.dir("/roots", "github.com/c/not-a-repo/deeper");
        t.link("/roots/github.com/a/x", "/roots/mirror");
        t.backdate("/roots");

        let opts = recording(detect, &[]);
        let mut disk = Disk::new();
        let expected = walk(&t, "/roots", &opts);

        let cold = disk.list(&cache(), &t, "/roots", &opts);
        assert_eq!(sorted(&cold), expected, "{detect:?}: the run that builds the index");
        assert!(cold.dirs_read() > 0, "{detect:?}: which is a full walk");

        let warm = disk.list(&cache(), &t, "/roots", &opts);
        assert_eq!(sorted(&warm), expected, "{detect:?}: the run that uses it");
        assert_eq!(warm.dirs_read(), 0, "{detect:?}: nothing is read");

        let again = disk.list(&cache(), &t, "/roots", &opts);
        assert_eq!(sorted(&again), expected, "{detect:?}: the rewritten index");
        assert_eq!(again.dirs_read(), 0, "{detect:?}: still a full validation");
    }
}

#[test]
fn a_root_that_is_itself_a_repository_survives_the_index() {
    for detect in BOTH {
        let mut t = Tree::new();
        t.dir("/roots", ".git");
        t.backdate("/roots");
        let opts = recording(detect, &[]);
        let mut disk = Disk::new();

        assert_eq!(sorted(&disk.list(&cache(), &t, "/roots", &opts)), ["."], "{detect:?}");
        let warm = disk.list(&cache(), &t, "/roots", &opts);
        assert_eq!(sorted(&warm), ["."], "{detect:?}");
        assert_eq!(warm.dirs_read(), 0, "{detect:?}: answered from the index");
    }
}

#[test]
fn a_bare_root_is_a_repository_without_ever_being_probed() {
    let mut t = Tree::new();
    t.mkdir("/roots/upstream.git");
    t.backdate("/roots/upstream.git");
    let opts = stat_first(&[]);
    let mut disk = Disk::new();

    assert_eq!(sorted(&disk.list(&cache(), &t, "/roots/upstream.git", &opts)), ["."]);
    assert_eq!(sorted(&disk.list(&cache(), &t, "/roots/upstream.git", &opts)), ["."]);

    let bare = Entry { rel: b"a/b.git".to_vec(), mtime_ns: None, children: Vec::new() };
    assert!(matches!(probe(&bare, b"roots"), ProbeRequest::Known(Probe::Repo)));
}

#[test]
fn every_mutation_the_index_can_see_is_seen() {
    for detect in BOTH {
        let mut t = Tree::new();
        t.repo("/roots", "github.com/a/x");
        t.repo("/roots", "github.com/a/y");
        t.dir("/roots", "github.com/plain");
        t.backdate("/roots");
        let opts = recording(detect, &[]);
        let mut disk = Disk::new();

        let mut check = |t: &Tree, label: &str| {
            let cached = sorted(&disk.list(&cache(), t, "/roots", &opts));
            assert_eq!(cached, walk(t, "/roots", &opts), "{detect:?}: {label}");
        };
        check(&t, "cold");
        check(&t, "warm");

        t.mkdir("/roots/github.com/plain/.git");
        check(&t, "a repository appearing inside a directory the index knew");

        t.remove("/roots/github.com/a/x/.git");
        check(&t, "a repository losing its .git");

        t.rename("/roots/github.com/a/y", "/roots/github.com/a/z");
        check(&t, "a repository renamed");

        t.remove("/roots/github.com/a/z");
        check(&t, "a repository removed");

        t.repo("/roots", "deeply/nested/one/two/three/four");
        check(&t, "a repository six levels down");

        t.mkdir("/roots/bare/mirror.git");
        check(&t, "a bare repository added");

        t.remove("/roots/bare/mirror.git");
        check(&t, "a bare repository removed");
    }
}

#[test]
fn a_directory_replaced_by_a_symlink_is_not_descended_on_a_cached_run() {
    let mut t = Tree::new();
    t.repo("/roots", "github.com/a/x");
    t.backdate("/roots");
    let opts = stat_first(&[]);
    let mut disk = Disk::new();
    assert_eq!(sorted(&disk.list(&cache(), &t, "/roots", &opts)), ["github.com/a/x"]);

    t.repo("/elsewhere", "hidden");
    t.remove("/roots/github.com/a");
    t.link("/elsewhere", "/roots/github.com/a");

    assert_eq!(
        sorted(&disk.list(&cache(), &t, "/roots", &opts)),
        walk(&t, "/roots", &opts),
        "a symlinked directory is not walked through, cached or not"
    );
}

#[test]
fn an_excluded_subtree_is_neither_indexed_nor_validated() {
    let mut t = Tree::new();
    t.repo("/roots", "github.com/a/x");
    t.repo("/roots", "vendor/bundled");
    t.backdate("/roots");
    let opts = stat_first(&["vendor"]);
    let mut disk = Disk::new();

    assert_eq!(sorted(&disk.list(&cache(), &t, "/roots", &opts)), ["github.com/a/x"]);
    let warm = disk.list(&cache(), &t, "/roots", &opts);
    assert_eq!(sorted(&warm), ["github.com/a/x"]);
    assert_eq!(warm.dirs_read(), 0, "answered from the index");

    let file = &disk.files[&cache().path_for(b"/roots").expect("a cache path")];
    let index = decode(file).expect("an index on disk");
    assert!(
        !index.entries.iter().any(|entry| entry.rel.starts_with(b"vendor")),
        "an excluded subtree never reaches the index, so it is never validated"
    );

    let opened = stat_first(&[]);
    assert_eq!(
        sorted(&disk.list(&cache(), &t, "/roots", &opened)),
        ["github.com/a/x", "vendor/bundled"]
    );
}

#[test]
fn a_check_run_reports_a_backdated_mutation_and_still_prints_the_truth() {
    let mut t = Tree::new();
    t.repo("/roots", "github.com/a/x");
    t.backdate("/roots");
    let opts = stat_first(&[]);
    let mut disk = Disk::new();

    let (listing, differs) = disk.check(&cache(), &t, "/roots", &opts);
    assert!(!differs, "there was no index to disagree with");
    assert_eq!(sorted(&listing), ["github.com/a/x"]);

    let (listing, differs) = disk.check(&cache(), &t, "/roots", &opts);
    assert!(!differs, "an index just written describes the tree");
    assert_eq!(sorted(&listing), ["github.com/a/x"]);

    t.repo("/roots", "github.com/a/y");
    t.backdate("/roots");

    let (listing, differs) = disk.check(&cache(), &t, "/roots", &opts);
    assert!(differs, "a backdated mutation is invisible to validation and visible to the check");
    assert_eq!(sorted(&listing), ["github.com/a/x", "github.com/a/y"], "the fresh walk");

    let (_, differs) = disk.check(&cache(), &t, "/roots", &opts);
    assert!(!differs, "the check leaves a correct index behind");
}

#[test]
fn a_check_says_which_paths_disagree() {
    let listing = |repos: &[&str]| {
        let records = repos.iter().map(|r| Record::repo(r.as_bytes())).collect();
        RootListing::from_records(records, 0, 0, false)
    };
    let difference = check_root(Some(&listing(&["b", "a", "z"])), &listing(&["c", "b", "d"]))
        .expect("they disagree");
    assert_eq!(difference.gone, vec![b"a".to_vec(), b"z".to_vec()]);
    assert_eq!(difference.added, vec![b"c".to_vec(), b"d".to_vec()]);
    assert!(check_root(Some(&listing(&["a", "b"])), &listing(&["b", "a"])).is_none());
    assert!(check_root(None, &listing(&["b", "a"])).is_none());
}

#[test]
fn a_backdated_mutation_is_exactly_what_a_cached_run_misses() {
    let mut t = Tree::new();
    t.repo("/roots", "github.com/a/x");
    t.backdate("/roots");
    let opts = stat_first(&[]);
    let mut disk = Disk::new();
    assert_eq!(sorted(&disk.list(&cache(), &t, "/roots", &opts)), ["github.com/a/x"]);

    t.repo("/roots", "github.com/a/y");
    t.backdate("/roots");
    assert_eq!(
        sorted(&disk.list(&cache(), &t, "/roots", &opts)),
        ["github.com/a/x"],
        "a rewound mtime is a lie the index has no way to catch"
    );
    assert_eq!(
        walk(&t, "/roots", &opts),
        ["github.com/a/x", "github.com/a/y"],
        "which the walk, and so `--no-cache`, still sees"
    );
}

#[test]
fn an_unusable_cache_directory_still_lists() {
    let mut t = Tree::new();
    t.repo("/roots", "github.com/a/x");
    t.backdate("/roots");
    let opts = stat_first(&[]);
    let mut disk = Disk::new();

    let nowhere = Cache { dir: None };
    assert!(nowhere.path_for(b"/roots").is_none(), "nowhere to keep an index");
    assert_eq!(sorted(&disk.list(&nowhere, &t, "/roots", &opts)), ["github.com/a/x"]);
    assert!(disk.files.is_empty());

    disk.writable = false;
    assert_eq!(sorted(&disk.list(&cache(), &t, "/roots", &opts)), ["github.com/a/x"]);
    assert_eq!(sorted(&disk.list(&cache(), &t, "/roots", &opts)), ["github.com/a/x"]);
}

#[test]
fn a_corrupt_index_file_is_rebuilt_rather_than_fatal() {
    let mut t = Tree::new();
    t.repo("/roots", "github.com/a/x");
    t.backdate("/roots");
    let opts = stat_first(&[]);
    let mut disk = Disk::new();
    assert_eq!(sorted(&disk.list(&cache(), &t, "/roots", &opts)), ["github.com/a/x"]);

    let path = cache().path_for(b"/roots").expect("a cache path");
    disk.files.insert(path.clone(), b"SCAPIDX\0garbage".to_vec());
    let rebuilt = disk.list(&cache(), &t, "/roots", &opts);
    assert_eq!(sorted(&rebuilt), ["github.com/a/x"]);
    assert!(rebuilt.dirs_read() > 0, "an unreadable index means a full walk");
    assert!(decode(&disk.files[&path]).is_some(), "and the run leaves a decodable index behind");
}

#[test]
fn a_walk_that_dropped_a_subtree_is_never_persisted_as_an_index() {
    let mut t = Tree::new();
    t.repo("/roots", "github.com/a/x");
    t.repo("/roots", "github.com/closed/inside");
    t.backdate("/roots");
    let opts = stat_first(&[]);
    let mut disk = Disk::new();
    let path = cache().path_for(b"/roots").expect("a cache path");

    t.chmod("/roots/github.com/closed", 0o000);
    let listing = disk.list(&cache(), &t, "/roots", &opts);
    assert!(listing.incomplete(), "an unreadable directory makes the walk short");
    assert!(!disk.files.contains_key(&path), "and a short walk writes no index at all");

    t.chmod("/roots/github.com/closed", 0o755);
    let listing = disk.list(&cache(), &t, "/roots", &opts);
    assert!(!listing.incomplete());
    let written = disk.files[&path].clone();

    t.chmod("/roots/github.com/closed", 0o000);
    disk.list(&cache(), &t, "/roots", &opts);
    assert_eq!(disk.files[&path], written, "the index is left alone");
}

// Enablement and placement.

#[test]
fn no_cache_wins_over_every_way_of_turning_the_index_on() {
    assert_eq!(mode(false, false, false, false), Mode::Off, "nothing asked for it");
    assert_eq!(mode(true, false, false, false), Mode::On, "--cache");
    assert_eq!(mode(false, false, false, true), Mode::On, "scap.listCache");
    assert_eq!(mode(false, true, false, true), Mode::Off, "--no-cache over the configuration");
    assert_eq!(mode(true, true, false, true), Mode::Off, "--no-cache over --cache");
    assert_eq!(mode(false, false, true, false), Mode::Check, "--cache-check without the index");
    assert_eq!(mode(true, false, true, true), Mode::Check, "--cache-check beside --cache");
    assert_eq!(mode(false, true, true, true), Mode::Check, "the unreachable pair, defensively");
}

#[test]
fn the_cache_directory_follows_the_xdg_specification() {
    let home = Some(b"/home/u".as_slice());
    assert_eq!(cache_dir_from(Some(b"/x/cache"), home), Some(b"/x/cache/scap".to_vec()));
    assert_eq!(
        cache_dir_from(Some(b""), home),
        Some(b"/home/u/.cache/scap".to_vec()),
        "an empty variable is an unset variable"
    );
    assert_eq!(
        cache_dir_from(Some(b"relative"), home),
        Some(b"/home/u/.cache/scap".to_vec()),
        "a relative value is invalid"
    );
    assert_eq!(cache_dir_from(None, home), Some(b"/home/u/.cache/scap".to_vec()));
    assert_eq!(cache_dir_from(None, None), None, "no home, no cache, still a listing");
}

#[test]
fn the_process_cache_reads_the_same_environment_the_specification_names() {
    for (xdg, home) in [
        (None, None),
        (Some(b"/x".as_slice()), None),
        (None, Some(b"/home/u".as_slice())),
        (Some(b"rel".as_slice()), Some(b"/home/u".as_slice())),
    ] {
        let expected = cache_dir_from(xdg, home);
        let cache = Cache::from_env(xdg, home);
        assert_eq!(cache.dir, expected);
        let path = cache.path_for(b"/roots/a");
        assert_eq!(path.is_some(), expected.is_some());
        if let (Some(path), Some(mut dir)) = (path, expected) {
            dir.push(b'/');
            assert!(path.starts_with(&dir) && !path[dir.len()..].contains(&b'/'));
        }
    }
}

#[test]
fn two_roots_never_share_one_index_file() {
    let cache = cache();
    let a = cache.path_for(b"/roots/a").expect("a path");
    let b = cache.path_for(b"/roots/b").expect("a path");
    assert_ne!(a, b);
    assert!(a.starts_with(b"/cache/"), "index files live in the cache directory");
    assert_eq!(a, cache.path_for(b"/roots/a").expect("a path"), "and are stable");
    assert_eq!(
        a,
        format!("/cache/index-{:016x}.bin", fnv1a64(b"/roots/a")).into_bytes()
    );
}

#[test]
fn fnv1a64_matches_the_published_vectors() {
    assert_eq!(fnv1a64(b""), 0xcbf2_9ce4_8422_2325);
    assert_eq!(fnv1a64(b"a"), 0xaf63_dc4c_8601_ec8c);
    assert_eq!(fnv1a64(b"foobar"), 0x8594_4171_f739_67e8);
}

#[test]
fn a_relative_path_is_split_the_way_the_walk_built_it() {
    assert_eq!(parent_of(b""), b"");
    assert_eq!(parent_of(b"a"), b"");
    assert_eq!(parent_of(b"a/b"), b"a");
    assert_eq!(parent_of(b"a/b/c"), b"a/b");
    assert_eq!(basename(b""), b"");
    assert_eq!(basename(b"a"), b"a");
    assert_eq!(basename(b"a/b.git"), b"b.git");
}

#[test]
fn a_tree_without_its_root_makes_no_index() {
    let none = Vec::new();
    let orphan = vec![Record::repo(b"a/b"), Record::dir(b"", 1)];
    assert!(build(b"/r", &none, &orphan, 1, 2, 3).is_none());
    assert!(build(b"/r", &none, &vec![Record::repo(b"a")], 1, 2, 3).is_none());
    let twice = vec![Record::dir(b"", 1), Record::repo(b"b"), Record::repo(b"a"), Record::repo(b"b")];
    let index = build(b"/r", &none, &twice, 1, 2, 3).expect("a tree");
    let rels: Vec<&[u8]> = index.entries.iter().map(|e| e.rel.as_slice()).collect();
    assert_eq!(rels, vec![b"".as_slice(), b"a", b"b"]);
    assert_eq!(index.entries[0].children, vec![1, 2]);
}

#[test]
fn numbers_out_of_range_saturate() {
    assert_eq!(ident(5), 5);
    assert_eq!(ident(-1), u64::MAX);
    assert_eq!(ident(i128::MAX), u64::MAX);
    assert_eq!(now_ns(5, false), 5);
    assert_eq!(now_ns(5, true), -5);
    assert_eq!(now_ns(u128::MAX, false), i64::MAX);
    assert_eq!(now_ns(u128::MAX, true), i64::MIN);
}
