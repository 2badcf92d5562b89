//! The files that configuration is read from.

use vstd::prelude::*;
use vstd::slice::slice_to_vec;
use vstd::utf8::encode_utf8;

use crate::bytes::{bytes_eq, joined, lemma_split_joined, opt_view, split, split_on, views};
use crate::config::settings::{boolean_of, parsed_config, plain_boolean, read_config};
use crate::config::values::{is_truthy, truthy};
use crate::config::{known_at, opt_slice, Env, EnvView};
use crate::paths::{join, joined_path};

verus! {

/// The places where a system file may be.
pub open spec fn system_candidates() -> Seq<Seq<u8>> {
    seq![
        encode_utf8("/etc/gitconfig"@),
        encode_utf8("/usr/local/etc/gitconfig"@),
        encode_utf8("/opt/homebrew/etc/gitconfig"@),
        encode_utf8("/opt/local/etc/gitconfig"@),
    ]
}

/// The places where a system file may be.
pub fn default_system_candidates() -> (r: Vec<Vec<u8>>)
    ensures
        views(r@) == system_candidates(),
{
    let mut out: Vec<Vec<u8>> = Vec::new();
    out.push(slice_to_vec("/etc/gitconfig".as_bytes()));
    out.push(slice_to_vec("/usr/local/etc/gitconfig".as_bytes()));
    out.push(slice_to_vec("/opt/homebrew/etc/gitconfig".as_bytes()));
    out.push(slice_to_vec("/opt/local/etc/gitconfig".as_bytes()));
    assert(views(out@) =~= system_candidates());
    out
}

/// Which level a file belongs to.
#[derive(Debug, Clone, Copy, PartialEq, Eq, Structural)]
pub enum Source {
    System,
    /// The user's file below the configuration directory.
    Git,
    /// The user's file in the home directory.
    User,
    /// The repository's own file.
    Local,
    /// The file of one working tree of the repository.
    Worktree,
}

/// The files that configuration is read from, in order, and what was seen
/// when they were found.
#[derive(Debug)]
pub struct SourceList {
    pub files: Vec<(Vec<u8>, Source)>,
    /// How many of the places for a system file hold one.
    pub system_probe_matches: usize,
    /// The repository's directory, where there is a repository.
    pub git_dir: Option<Vec<u8>>,
}

/// What a list of files holds.
pub open spec fn file_views(v: Seq<(Vec<u8>, Source)>) -> Seq<(Seq<u8>, Source)> {
    Seq::new(v.len(), |i: int| (v[i].0@, v[i].1))
}

/// What is seen on disk of the places that files may be at.
#[derive(Debug, Default)]
pub struct Observed {
    /// For each place for a system file whether it holds a file.
    pub system_is_file: Vec<bool>,
    /// For each of the user's files where it really lies.
    pub global_canonical: Vec<Option<Vec<u8>>>,
    /// The repository that the working directory lies in.
    pub git_dir: Option<Vec<u8>>,
    /// The directory that the repository shares among its working trees,
    /// where it names one.
    pub common_dir: Option<Vec<u8>>,
    /// Whether the working tree has a file of its own.
    pub worktree_is_file: bool,
    /// What the repository's file holds.
    pub local: Option<Vec<u8>>,
}

/// The places that hold a file, in order.
pub open spec fn present(candidates: Seq<Seq<u8>>, is_file: Seq<bool>) -> Seq<Seq<u8>>
    decreases candidates.len(),
{
    if candidates.len() == 0 {
        Seq::empty()
    } else {
        let i = candidates.len() - 1;
        let before = present(candidates.drop_last(), is_file);
        if i < is_file.len() && is_file[i] {
            before.push(candidates[i])
        } else {
            before
        }
    }
}

/// The places that hold a file, in order, given which do.
pub fn probe_system_config(candidates: &[Vec<u8>], is_file: &[bool]) -> (r: Vec<Vec<u8>>)
    ensures
        views(r@) == present(views(candidates@), is_file@),
{
    let ghost all = views(candidates@);
    let mut out: Vec<Vec<u8>> = Vec::new();
    let mut i: usize = 0;
    assert(all.take(0) =~= Seq::empty());
    assert(views(out@) =~= present(all.take(0), is_file@));
    while i < candidates.len()
        invariant
            i <= candidates@.len(),
            all == views(candidates@),
            views(out@) == present(all.take(i as int), is_file@),
        decreases candidates@.len() - i,
    {
        proof {
            assert(all.take(i + 1).drop_last() =~= all.take(i as int));
            assert(all.take(i + 1)[i as int] == candidates@[i as int]@);
        }
        if i < is_file.len() && is_file[i] {
            let ghost before = views(out@);
            out.push(slice_to_vec(candidates[i].as_slice()));
            assert(views(out@) =~= before.push(candidates@[i as int]@));
        }
        i += 1;
    }
    assert(all.take(i as int) =~= all);
    out
}

/// What is seen of a file.
#[derive(Debug, Clone, Copy)]
pub struct FileMode {
    pub is_file: bool,
    pub mode: u32,
}

/// Whether a file can be run.
pub open spec fn is_program(seen: Option<FileMode>) -> bool {
    seen matches Some(m) && m.is_file && m.mode & 0o111 != 0
}

/// The directories that programs are looked for in, without the empty ones.
pub open spec fn program_dirs(dirs: Seq<Seq<u8>>) -> Seq<Seq<u8>>
    decreases dirs.len(),
{
    if dirs.len() == 0 {
        Seq::empty()
    } else {
        let before = program_dirs(dirs.drop_last());
        if dirs.last().len() > 0 {
            before.push(joined_path(dirs.last(), encode_utf8("git"@)))
        } else {
            before
        }
    }
}

/// The places that git may be at, in order.
pub open spec fn git_places(env: EnvView) -> Seq<Seq<u8>> {
    match env.path {
        Some(path) => program_dirs(split_on(path, 0x3au8)),
        None => Seq::empty(),
    }
}

/// The places that git may be at, in order.
pub fn git_candidates(env: &Env) -> (r: Vec<Vec<u8>>)
    ensures
        views(r@) == git_places(env@),
{
    let mut out: Vec<Vec<u8>> = Vec::new();
    if let Some(path) = &env.path {
        let dirs = split(path.as_slice(), 0x3a);
        let ghost all = views(dirs@);
        let mut i: usize = 0;
        assert(all.take(0) =~= Seq::empty());
        assert(views(out@) =~= program_dirs(all.take(0)));
        while i < dirs.len()
            invariant
                i <= dirs@.len(),
                all == views(dirs@),
                views(out@) == program_dirs(all.take(i as int)),
            decreases dirs@.len() - i,
        {
            proof {
                assert(all.take(i + 1).drop_last() =~= all.take(i as int));
                assert(all.take(i + 1).last() == dirs@[i as int]@);
            }
            if dirs[i].len() > 0 {
                let ghost before = views(out@);
                let place = join(dirs[i].as_slice(), "git".as_bytes());
                let ghost added = place@;
                out.push(place);
                assert(views(out@) =~= before.push(added));
            }
            i += 1;
        }
        assert(all.take(i as int) =~= all);
    } else {
        assert(views(out@) =~= Seq::empty());
    }
    out
}

/// The first of the places that git may be at which can be run, given what is
/// seen there.
pub fn resolve_git_program(env: &Env, seen: &[Option<FileMode>]) -> (r: Option<Vec<u8>>)
    ensures
        match r {
            Some(p) => exists|i: int|
                0 <= i < git_places(env@).len() && i < seen@.len() && #[trigger] is_program(seen@[i])
                    && p@ == git_places(env@)[i] && (forall|j: int|
                    0 <= j < i ==> !is_program(#[trigger] seen@[j])),
            None => forall|i: int|
                0 <= i < git_places(env@).len() && i < seen@.len() ==> !is_program(
                    #[trigger] seen@[i],
                ),
        },
{
    let places = git_candidates(env);
    let mut i: usize = 0;
    while i < places.len() && i < seen.len()
        invariant
            i <= places@.len(),
            i <= seen@.len(),
            views(places@) == git_places(env@),
            forall|j: int| 0 <= j < i ==> !is_program(#[trigger] seen@[j]),
        decreases places@.len() - i,
    {
        if let Some(m) = seen[i] {
            if m.is_file && m.mode & 0o111 != 0 {
                assert(is_program(seen@[i as int]));
                assert(views(places@)[i as int] == places@[i as int]@);
                return Some(slice_to_vec(places[i].as_slice()));
            }
        }
        i += 1;
    }
    assert(views(places@).len() == places@.len());
    None
}

/// The system files.
pub open spec fn system_files(env: EnvView, is_file: Seq<bool>) -> Seq<Seq<u8>> {
    match env.git_config_system {
        Some(p) => seq![p],
        None => if is_truthy(env.git_config_nosystem) {
            Seq::empty()
        } else {
            present(env.system_probe_candidates, is_file)
        },
    }
}

/// The user's files before it is looked up where they really lie: the one
/// that a variable names, else the one below the configuration directory and
/// the one in the home directory.
pub open spec fn global_files(env: EnvView) -> Seq<(Seq<u8>, Source)> {
    match env.git_config_global {
        Some(p) => seq![(p, Source::User)],
        None => {
            let dir = match env.xdg_config_home {
                Some(d) => Some(d),
                None => match env.home {
                    Some(h) => Some(joined_path(h, encode_utf8(".config"@))),
                    None => None,
                },
            };
            let first = match dir {
                Some(d) => seq![
                    (
                        joined_path(
                            joined_path(d, encode_utf8("git"@)),
                            encode_utf8("config"@),
                        ),
                        Source::Git,
                    ),
                ],
                None => Seq::empty(),
            };
            match env.home {
                Some(h) => first.push((joined_path(h, encode_utf8(".gitconfig"@)), Source::User)),
                None => first,
            }
        },
    }
}

/// The user's files before it is looked up where they really lie.
pub fn global_candidates(env: &Env) -> (r: Vec<(Vec<u8>, Source)>)
    ensures
        file_views(r@) == global_files(env@),
{
    let mut out: Vec<(Vec<u8>, Source)> = Vec::new();
    if let Some(p) = &env.git_config_global {
        out.push((slice_to_vec(p.as_slice()), Source::User));
        assert(file_views(out@) =~= global_files(env@));
        return out;
    }
    let dir = match &env.xdg_config_home {
        Some(d) => Some(slice_to_vec(d.as_slice())),
        None => match &env.home {
            Some(h) => Some(join(h.as_slice(), ".config".as_bytes())),
            None => None,
        },
    };
    if let Some(d) = &dir {
        let git = join(d.as_slice(), "git".as_bytes());
        out.push((join(git.as_slice(), "config".as_bytes()), Source::Git));
    }
    if let Some(h) = &env.home {
        out.push((join(h.as_slice(), ".gitconfig".as_bytes()), Source::User));
    }
    assert(file_views(out@) =~= global_files(env@));
    out
}

/// Where a file really lies, as far as that is known.
pub open spec fn key_of(
    files: Seq<(Seq<u8>, Source)>,
    canonical: Seq<Option<Vec<u8>>>,
    i: int,
) -> Seq<u8> {
    match known_at(canonical, i) {
        Some(p) => p,
        None => files[i].0,
    }
}

/// Whether an earlier file lies where this one does.
pub open spec fn is_repeated(
    files: Seq<(Seq<u8>, Source)>,
    canonical: Seq<Option<Vec<u8>>>,
    i: int,
) -> bool {
    exists|j: int| 0 <= j < i && #[trigger] key_of(files, canonical, j) == key_of(files, canonical, i)
}

/// The first `n` files without those that lie where an earlier one does.
pub open spec fn distinct_files(
    files: Seq<(Seq<u8>, Source)>,
    canonical: Seq<Option<Vec<u8>>>,
    n: int,
) -> Seq<(Seq<u8>, Source)>
    decreases n,
{
    if n <= 0 {
        Seq::empty()
    } else {
        let before = distinct_files(files, canonical, n - 1);
        if is_repeated(files, canonical, n - 1) {
            before
        } else {
            before.push(files[n - 1])
        }
    }
}

/// The files of a repository: its own, and that of the working tree where the
/// repository has switched those on.
pub open spec fn repository_files(
    git_dir: Seq<u8>,
    common_dir: Option<Seq<u8>>,
    worktree: bool,
) -> Seq<(Seq<u8>, Source)> {
    let shared = match common_dir {
        Some(d) => d,
        None => git_dir,
    };
    let local = seq![(joined_path(shared, encode_utf8("config"@)), Source::Local)];
    if worktree {
        local.push((joined_path(git_dir, encode_utf8("config.worktree"@)), Source::Worktree))
    } else {
        local
    }
}

/// The directory that a repository shares among its working trees: the one
/// that its `commondir` file names, from the repository's own directory on;
/// that directory itself where there is no such file.
pub fn common_dir_of(git_dir: &[u8], named: Option<&[u8]>) -> (r: Vec<u8>)
    ensures
        r@ == match named {
            Some(d) => joined_path(git_dir@, d@),
            None => git_dir@,
        },
{
    match named {
        Some(d) => join(git_dir, d),
        None => slice_to_vec(git_dir),
    }
}

/// The repository's own file.
pub fn local_config(git_dir: &[u8], common_dir: Option<&[u8]>) -> (r: Vec<u8>)
    ensures
        r@ == joined_path(
            match common_dir {
                Some(d) => d@,
                None => git_dir@,
            },
            encode_utf8("config"@),
        ),
{
    match common_dir {
        Some(d) => join(d, "config".as_bytes()),
        None => join(git_dir, "config".as_bytes()),
    }
}

/// The file of a working tree.
pub fn worktree_config(git_dir: &[u8]) -> (r: Vec<u8>)
    ensures
        r@ == joined_path(git_dir@, encode_utf8("config.worktree"@)),
{
    join(git_dir, "config.worktree".as_bytes())
}

/// Whether a repository's file switches the files of its working trees on.
pub open spec fn switches_worktrees_on(local: Option<Seq<u8>>) -> bool {
    &&& local matches Some(bytes)
    &&& parsed_config(bytes) matches Some(sections)
    &&& plain_boolean(sections, "extensions"@, "worktreeConfig"@) == Some(true)
}

/// Whether a repository's file switches the files of its working trees on.
pub fn worktree_config_enabled(local: Option<&[u8]>) -> (r: bool)
    ensures
        r == switches_worktrees_on(match local {
            Some(bytes) => Some(bytes@),
            None => None,
        }),
{
    match local {
        None => false,
        Some(bytes) => match read_config(bytes) {
            None => false,
            Some(sections) => match boolean_of(sections.as_slice(), "extensions", "worktreeConfig") {
                Some(on) => on,
                None => false,
            },
        },
    }
}

/// The repository's directory: the one that a variable names, else the one
/// that was found.
pub open spec fn repository_of(env: EnvView, found: Option<Seq<u8>>) -> Option<Seq<u8>> {
    match env.git_dir {
        Some(d) => Some(d),
        None => found,
    }
}

/// The files that configuration is read from, in order: the system's, the
/// user's, the repository's.
pub open spec fn source_files(env: EnvView, seen: Observed) -> Seq<(Seq<u8>, Source)> {
    let system = system_files(env, seen.system_is_file@);
    let global = global_files(env);
    let first = Seq::new(system.len(), |i: int| (system[i], Source::System));
    let both = first + distinct_files(global, seen.global_canonical@, global.len() as int);
    match repository_of(env, opt_view(seen.git_dir)) {
        Some(git_dir) => both + repository_files(
            git_dir,
            opt_view(seen.common_dir),
            seen.worktree_is_file && switches_worktrees_on(opt_view(seen.local)),
        ),
        None => both,
    }
}

fn key(files: &Vec<(Vec<u8>, Source)>, canonical: &Vec<Option<Vec<u8>>>, i: usize) -> (r: Vec<u8>)
    requires
        i < files@.len(),
    ensures
        r@ == key_of(file_views(files@), canonical@, i as int),
{
    if i < canonical.len() {
        if let Some(p) = &canonical[i] {
            return slice_to_vec(p.as_slice());
        }
    }
    slice_to_vec(files[i].0.as_slice())
}

fn repeated(files: &Vec<(Vec<u8>, Source)>, canonical: &Vec<Option<Vec<u8>>>, i: usize) -> (r: bool)
    requires
        i < files@.len(),
    ensures
        r == is_repeated(file_views(files@), canonical@, i as int),
{
    let ghost all = file_views(files@);
    let own = key(files, canonical, i);
    let mut j: usize = 0;
    while j < i
        invariant
            j <= i < files@.len(),
            all == file_views(files@),
            own@ == key_of(all, canonical@, i as int),
            forall|k: int| 0 <= k < j ==> #[trigger] key_of(all, canonical@, k) != own@,
        decreases i - j,
    {
        let other = key(files, canonical, j);
        if bytes_eq(other.as_slice(), own.as_slice()) {
            assert(key_of(all, canonical@, j as int) == own@);
            return true;
        }
        j += 1;
    }
    false
}

/// The files that configuration is read from, in order, given what is seen on
/// disk.
pub fn enumerate(env: &Env, seen: &Observed) -> (r: SourceList)
    ensures
        file_views(r.files@) == source_files(env@, *seen),
        r.system_probe_matches == (if env@.git_config_system is Some {
            0
        } else {
            system_files(env@, seen.system_is_file@).len()
        }),
        opt_view(r.git_dir) == repository_of(env@, opt_view(seen.git_dir)),
{
    let mut files: Vec<(Vec<u8>, Source)> = Vec::new();
    let mut system_probe_matches: usize = 0;
    let ghost system = system_files(env@, seen.system_is_file@);
    let ghost first: Seq<(Seq<u8>, Source)> = Seq::new(
        system.len(),
        |i: int| (system[i], Source::System),
    );
    if let Some(p) = &env.git_config_system {
        files.push((slice_to_vec(p.as_slice()), Source::System));
        assert(file_views(files@) =~= first);
    } else if !truthy(opt_slice(&env.git_config_nosystem)) {
        let found = probe_system_config(
            env.system_probe_candidates.as_slice(),
            seen.system_is_file.as_slice(),
        );
        assert(views(found@) == system);
        system_probe_matches = found.len();
        let mut i: usize = 0;
        assert(file_views(files@) =~= first.take(0));
        while i < found.len()
            invariant
                i <= found@.len(),
                views(found@) == system,
                first == Seq::new(system.len(), |i: int| (system[i], Source::System)),
                file_views(files@) == first.take(i as int),
            decreases found@.len() - i,
        {
            let ghost before = file_views(files@);
            assert(system[i as int] == found@[i as int]@);
            files.push((slice_to_vec(found[i].as_slice()), Source::System));
            assert(file_views(files@) =~= before.push(first[i as int]));
            i += 1;
            assert(file_views(files@) =~= first.take(i as int));
        }
        assert(first.take(i as int) =~= first);
    } else {
        assert(file_views(files@) =~= first);
    }
    let global = global_candidates(env);
    let ghost wanted = global_files(env@);
    let ghost canonical = seen.global_canonical@;
    let mut k: usize = 0;
    assert(first + distinct_files(wanted, canonical, 0) =~= first);
    while k < global.len()
        invariant
            k <= global@.len(),
            file_views(global@) == wanted,
            canonical == seen.global_canonical@,
            file_views(files@) == first + distinct_files(wanted, canonical, k as int),
        decreases global@.len() - k,
    {
        if !repeated(&global, &seen.global_canonical, k) {
            let ghost before = file_views(files@);
            let ghost done = distinct_files(wanted, canonical, k as int);
            assert(wanted[k as int] == (global@[k as int].0@, global@[k as int].1));
            files.push((slice_to_vec(global[k].0.as_slice()), global[k].1));
            assert(file_views(files@) =~= before.push(wanted[k as int]));
            assert(file_views(files@) =~= first + done.push(wanted[k as int]));
        }
        k += 1;
    }
    let ghost both = file_views(files@);
    let git_dir = match &env.git_dir {
        Some(d) => Some(slice_to_vec(d.as_slice())),
        None => match &seen.git_dir {
            Some(d) => Some(slice_to_vec(d.as_slice())),
            None => None,
        },
    };
    if let Some(dir) = &git_dir {
        let local = local_config(dir.as_slice(), opt_slice(&seen.common_dir));
        let worktree = seen.worktree_is_file && worktree_config_enabled(opt_slice(&seen.local));
        let ghost more = repository_files(dir@, opt_view(seen.common_dir), worktree);
        files.push((local, Source::Local));
        if worktree {
            files.push((worktree_config(dir.as_slice()), Source::Worktree));
        }
        assert(file_views(files@) =~= both + more);
    }
    SourceList { files, system_probe_matches, git_dir }
}

/// Where a repository is looked for.
#[derive(Debug)]
pub enum Discovery {
    /// A variable names it.
    Named(Vec<u8>),
    /// In a directory and those above it, but in none of the ceilings.
    Upwards { from: Vec<u8>, ceilings: Vec<Vec<u8>> },
    /// Nowhere.
    Nowhere,
}

/// Where the repository is looked for.
pub fn discovery(env: &Env) -> (r: Discovery)
    ensures
        match r {
            Discovery::Named(d) => env@.git_dir == Some(d@),
            Discovery::Upwards { from, ceilings } => env@.git_dir is None && env@.cwd == Some(from@)
                && views(ceilings@) == (match env@.git_ceiling_directories {
                Some(v) => split_on(v, 0x3au8),
                None => Seq::empty(),
            }),
            Discovery::Nowhere => env@.git_dir is None && env@.cwd is None,
        },
{
    if let Some(d) = &env.git_dir {
        return Discovery::Named(slice_to_vec(d.as_slice()));
    }
    match &env.cwd {
        None => Discovery::Nowhere,
        Some(cwd) => {
            let ceilings = match &env.git_ceiling_directories {
                Some(v) => split(v.as_slice(), 0x3a),
                None => {
                    let none: Vec<Vec<u8>> = Vec::new();
                    assert(views(none@) =~= Seq::empty());
                    none
                },
            };
            Discovery::Upwards { from: slice_to_vec(cwd.as_slice()), ceilings }
        },
    }
}

/// The order in which the kinds of files are read: what is read later wins.
pub open spec fn rank(source: Source) -> int {
    match source {
        Source::System => 0,
        Source::Git => 1,
        Source::User => 2,
        Source::Local => 3,
        Source::Worktree => 4,
    }
}

proof fn lemma_distinct_files(
    files: Seq<(Seq<u8>, Source)>,
    canonical: Seq<Option<Vec<u8>>>,
    n: int,
)
    requires
        0 <= n <= files.len(),
    ensures
        forall|k: int|
            0 <= k < distinct_files(files, canonical, n).len() ==> exists|i: int|
                0 <= i < n && !is_repeated(files, canonical, i) && #[trigger] distinct_files(
                    files,
                    canonical,
                    n,
                )[k] == #[trigger] files[i],
        forall|i: int|
            0 <= i < n && !is_repeated(files, canonical, i) ==> distinct_files(
                files,
                canonical,
                n,
            ).contains(#[trigger] files[i]),
        distinct_files(files, canonical, n).len() <= n,
    decreases n,
{
    if n > 0 {
        lemma_distinct_files(files, canonical, n - 1);
        let before = distinct_files(files, canonical, n - 1);
        let all = distinct_files(files, canonical, n);
        assert forall|k: int| 0 <= k < all.len() implies exists|i: int|
            0 <= i < n && !is_repeated(files, canonical, i) && #[trigger] all[k]
                == #[trigger] files[i] by {
            if k < before.len() {
                assert(all[k] == before[k]);
                let i = choose|i: int|
                    0 <= i < n - 1 && !is_repeated(files, canonical, i) && #[trigger] before[k]
                        == #[trigger] files[i];
                assert(all[k] == files[i]);
            } else {
                assert(all[k] == files[n - 1]);
            }
        }
        assert forall|i: int| 0 <= i < n && !is_repeated(files, canonical, i) implies all.contains(
            #[trigger] files[i],
        ) by {
            if i < n - 1 {
                let k = choose|k: int| 0 <= k < before.len() && before[k] == files[i];
                assert(all[k] == files[i]);
            } else {
                assert(all[before.len() as int] == files[i]);
            }
        }
    }
}

proof fn lemma_present(candidates: Seq<Seq<u8>>, is_file: Seq<bool>, p: Seq<u8>)
    ensures
        present(candidates, is_file).contains(p) <==> exists|i: int|
            0 <= i < candidates.len() && i < is_file.len() && #[trigger] candidates[i] == p
                && is_file[i],
    decreases candidates.len(),
{
    let found = present(candidates, is_file);
    if candidates.len() > 0 {
        let shorter = candidates.drop_last();
        let last = candidates.len() - 1;
        lemma_present(shorter, is_file, p);
        let before = present(shorter, is_file);
        if found.contains(p) {
            let k = choose|k: int| 0 <= k < found.len() && found[k] == p;
            if k < before.len() {
                assert(before[k] == p);
                let i = choose|i: int|
                    0 <= i < shorter.len() && i < is_file.len() && #[trigger] shorter[i] == p
                        && is_file[i];
                assert(candidates[i] == p);
            } else {
                assert(candidates[last] == p);
            }
        }
        if exists|i: int|
            0 <= i < candidates.len() && i < is_file.len() && #[trigger] candidates[i] == p
                && is_file[i] {
            let i = choose|i: int|
                0 <= i < candidates.len() && i < is_file.len() && #[trigger] candidates[i] == p
                    && is_file[i];
            if i < last {
                assert(shorter[i] == p);
                let k = choose|k: int| 0 <= k < before.len() && before[k] == p;
                assert(found[k] == p);
            } else {
                assert(found[before.len() as int] == p);
            }
        }
    }
}

/// Which system files are read: the one that a variable names, whatever else
/// is set; else none where they are switched off; else every place that holds
/// a file.
pub proof fn law_system_files(env: EnvView, is_file: Seq<bool>, p: Seq<u8>)
    ensures
        system_files(env, is_file).contains(p) <==> (match env.git_config_system {
            Some(named) => p == named,
            None => !is_truthy(env.git_config_nosystem) && exists|i: int|
                0 <= i < env.system_probe_candidates.len() && i < is_file.len()
                    && #[trigger] env.system_probe_candidates[i] == p && is_file[i],
        }),
        env.git_config_system is Some ==> system_files(env, is_file).len() == 1,
{
    let found = system_files(env, is_file);
    if let Some(named) = env.git_config_system {
        assert(found[0] == named);
    } else {
        lemma_present(env.system_probe_candidates, is_file, p);
    }
}

/// Which of the user's files are read: the one that a variable names, alone;
/// else the one in the home directory last, and before it the one below the
/// configuration directory, which is `.config` in the home directory unless a
/// variable names another.
pub proof fn law_user_files(env: EnvView)
    ensures
        env.git_config_global matches Some(named) ==> global_files(env) == seq![
            (named, Source::User),
        ],
        env.git_config_global is None && env.home is Some ==> global_files(env).len() == 2
            && global_files(env)[1] == (
            joined_path(env.home->0, encode_utf8(".gitconfig"@)),
            Source::User,
        ),
        env.git_config_global is None && env.xdg_config_home is Some ==> global_files(env).len() > 0
            && global_files(env)[0] == (
            joined_path(
                joined_path(env.xdg_config_home->0, encode_utf8("git"@)),
                encode_utf8("config"@),
            ),
            Source::Git,
        ),
        env.git_config_global is None && env.xdg_config_home is None ==> global_files(env)
            == global_files(
            (EnvView {
                xdg_config_home: match env.home {
                    Some(h) => Some(joined_path(h, encode_utf8(".config"@))),
                    None => None,
                },
                ..env
            }),
        ),
        env.git_config_global is None && env.home is None && env.xdg_config_home is None
            ==> global_files(env).len() == 0,
{
}

/// The files of a configuration are read by kind: the system's, the user's,
/// the repository's, the working tree's, so that the nearer wins. None of the
/// user's is read twice, and each is read where it lies. The repository's own
/// file is read wherever there is a repository, the working tree's only where
/// it is there and switched on.
#[verifier::rlimit(60)]
pub proof fn law_files_are_read_by_kind(env: EnvView, seen: Observed)
    ensures
        ({
            let files = source_files(env, seen);
            &&& forall|i: int, j: int|
                0 <= i < j < files.len() ==> rank((#[trigger] files[i]).1) <= rank(
                    (#[trigger] files[j]).1,
                )
            &&& forall|p: Seq<u8>| #[trigger]
                files.contains((p, Source::System)) <==> system_files(
                    env,
                    seen.system_is_file@,
                ).contains(p)
            &&& forall|i: int|
                0 <= i < global_files(env).len() && !is_repeated(
                    global_files(env),
                    seen.global_canonical@,
                    i,
                ) ==> files.contains(#[trigger] global_files(env)[i])
            &&& forall|k: int|
                0 <= k < files.len() && ((#[trigger] files[k]).1 is Git || files[k].1 is User)
                    ==> global_files(env).contains(files[k])
            &&& repository_of(env, opt_view(seen.git_dir)) is Some <==> exists|k: int|
                0 <= k < files.len() && (#[trigger] files[k]).1 is Local
            &&& repository_of(env, opt_view(seen.git_dir)) is Some ==> files.contains(
                (
                    joined_path(
                        match opt_view(seen.common_dir) {
                            Some(d) => d,
                            None => repository_of(env, opt_view(seen.git_dir))->0,
                        },
                        encode_utf8("config"@),
                    ),
                    Source::Local,
                ),
            )
            &&& (exists|k: int| 0 <= k < files.len() && (#[trigger] files[k]).1 is Worktree)
                <==> repository_of(env, opt_view(seen.git_dir)) is Some && seen.worktree_is_file
                && switches_worktrees_on(opt_view(seen.local))
            &&& env.git_dir is Some ==> repository_of(env, opt_view(seen.git_dir)) == env.git_dir
            &&& env.git_dir is None ==> repository_of(env, opt_view(seen.git_dir)) == opt_view(
                seen.git_dir,
            )
        }),
{
    let files = source_files(env, seen);
    let system = system_files(env, seen.system_is_file@);
    let global = global_files(env);
    let first = Seq::new(system.len(), |i: int| (system[i], Source::System));
    let mine = distinct_files(global, seen.global_canonical@, global.len() as int);
    let both = first + mine;
    lemma_distinct_files(global, seen.global_canonical@, global.len() as int);
    lemma_user_kinds(env, seen.global_canonical@);
    let repo = repository_of(env, opt_view(seen.git_dir));
    let tree = seen.worktree_is_file && switches_worktrees_on(opt_view(seen.local));
    let n = first.len() as int;
    let m = both.len() as int;
    assert forall|k: int| 0 <= k < m implies #[trigger] files[k] == both[k] by {}
    assert forall|k: int| 0 <= k < n implies (#[trigger] files[k]).1 is System by {
        assert(files[k] == both[k]);
    }
    assert forall|k: int| n <= k < m implies #[trigger] files[k] == mine[k - n] by {
        assert(files[k] == both[k]);
    }
    assert forall|k: int| n <= k < m implies ((#[trigger] files[k]).1 is Git || files[k].1 is User)
        && global.contains(files[k]) by {
        assert(files[k] == mine[k - n]);
        let i = choose|i: int|
            0 <= i < global.len() && !is_repeated(global, seen.global_canonical@, i)
                && #[trigger] mine[k - n] == #[trigger] global[i];
        assert(global.contains(global[i]));
    }
    if repo is Some {
        assert(files[m].1 is Local);
        assert(files.len() == m + (if tree {
            2int
        } else {
            1
        }));
        if tree {
            assert(files[m + 1].1 is Worktree);
        }
    } else {
        assert(files.len() == m);
    }
    assert forall|p: Seq<u8>| #[trigger] files.contains((p, Source::System)) <==> system.contains(
        p,
    ) by {
        if files.contains((p, Source::System)) {
            let k = choose|k: int| 0 <= k < files.len() && files[k] == (p, Source::System);
            assert(k < n);
            assert(files[k] == both[k]);
            assert(system[k] == p);
        }
        if system.contains(p) {
            let k = choose|k: int| 0 <= k < system.len() && system[k] == p;
            assert(files[k] == both[k]);
            assert(files[k] == (p, Source::System));
        }
    }
    assert forall|i: int|
        0 <= i < global.len() && !is_repeated(
            global,
            seen.global_canonical@,
            i,
        ) implies files.contains(#[trigger] global[i]) by {
        let k = choose|k: int| 0 <= k < mine.len() && mine[k] == global[i];
        assert(files[n + k] == mine[k]);
    }
    assert forall|i: int, j: int| 0 <= i < j < files.len() implies rank((#[trigger] files[i]).1)
        <= rank((#[trigger] files[j]).1) by {
        if n <= i && j < m {
            assert(files[i] == mine[i - n]);
            assert(files[j] == mine[j - n]);
        }
    }
}

/// The user's files are of two kinds, in order.
proof fn lemma_user_kinds(env: EnvView, canonical: Seq<Option<Vec<u8>>>)
    ensures
        ({
            let mine = distinct_files(
                global_files(env),
                canonical,
                global_files(env).len() as int,
            );
            &&& mine.len() <= 2
            &&& forall|i: int|
                0 <= i < global_files(env).len() ==> (#[trigger] global_files(env)[i]).1 is Git
                    || global_files(env)[i].1 is User
            &&& forall|i: int, j: int|
                0 <= i < j < mine.len() ==> rank((#[trigger] mine[i]).1) <= rank(
                    (#[trigger] mine[j]).1,
                )
        }),
{
    let global = global_files(env);
    assert(global.len() <= 2);
    reveal_with_fuel(distinct_files, 3);
}

/// Git is looked for in every directory of the path that has a name, in
/// order, and nowhere else.
pub proof fn law_git_is_looked_for_along_the_path(
    a: Seq<Seq<u8>>,
    dir: Seq<u8>,
    b: Seq<Seq<u8>>,
)
    ensures
        program_dirs(a + b) == program_dirs(a) + program_dirs(b),
        dir.len() > 0 ==> program_dirs(seq![dir]) == seq![joined_path(dir, encode_utf8("git"@))],
        dir.len() == 0 ==> program_dirs(seq![dir]).len() == 0,
        program_dirs(Seq::empty()).len() == 0,
    decreases b.len(),
{
    if b.len() > 0 {
        law_git_is_looked_for_along_the_path(a, dir, b.drop_last());
        assert((a + b).drop_last() =~= a + b.drop_last());
        assert((a + b).last() == b.last());
        assert(program_dirs(a + b) =~= program_dirs(a) + program_dirs(b));
    } else {
        assert(a + b =~= a);
        assert(program_dirs(a) + program_dirs(b) =~= program_dirs(a));
    }
    let one = seq![dir];
    assert(one.drop_last() =~= Seq::<Seq<u8>>::empty());
    assert(program_dirs(one.drop_last()) =~= Seq::empty());
    assert(one.last() == dir);
    if dir.len() > 0 {
        assert(program_dirs(one) =~= seq![joined_path(dir, encode_utf8("git"@))]);
    }
}

/// A path's directories are what stands between its colons; without a path
/// git is looked for nowhere.
pub proof fn law_path_is_parted_at_colons(env: EnvView, dirs: Seq<Seq<u8>>)
    requires
        dirs.len() > 0,
        forall|i: int| 0 <= i < dirs.len() ==> !(#[trigger] dirs[i]).contains(0x3au8),
    ensures
        env.path == Some(joined(dirs, 0x3au8)) ==> git_places(env) == program_dirs(dirs),
        env.path is None ==> git_places(env).len() == 0,
{
    lemma_split_joined(dirs, 0x3au8);
}

} // verus!
