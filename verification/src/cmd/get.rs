//! Getting repositories.

pub mod laws;

use vstd::prelude::*;
use vstd::slice::slice_to_vec;
use vstd::utf8::encode_utf8;

use crate::bytes::push_all;
use crate::cli::GetArgs;
use crate::cmd::{is_git_vcs, is_vcs_error, validate_vcs, CmdError};
use crate::paths::{join, joined_path, parent, parent_dir};
use crate::text::{debug_text, decimal, decimal_text, is_empty, quoted, strip, stripped, texts};
use crate::url::{opt_string, Repo, RepoView};
use crate::vcs::git::{is_stale, maker_of, text_name, utf8_name, CloneOptions, UpdateOptions};
use crate::walk::{decimal_value, is_decimal, is_digit};

verus! {

/// How many repositories are cloned at a time.
pub const PARALLEL_WORKERS: usize = 6;

/// The status with which the program ends where another process clones the
/// same repository.
pub const EX_TEMPFAIL: i32 = 75;

/// Accepts the names of git.
pub fn check(args: &GetArgs) -> (r: Result<(), CmdError>)
    ensures
        match r {
            Ok(()) => is_git_vcs(opt_string(args.vcs)),
            Err(e) => is_vcs_error(opt_string(args.vcs), e),
        },
{
    match &args.vcs {
        Some(v) => validate_vcs(Some(v.as_str())),
        None => Ok(()),
    }
}

/// What arguments ask for, once some of them imply others.
#[derive(Debug)]
pub struct Effective {
    pub update: bool,
    pub ssh: bool,
    pub shallow: bool,
    pub look: bool,
    pub silent: bool,
    pub no_recursive: bool,
    pub branch: Option<String>,
    pub bare: bool,
    pub partial: Option<String>,
    pub parallel: bool,
}

fn copy_text(s: &Option<String>) -> (r: Option<String>)
    ensures
        opt_string(r) == opt_string(*s),
{
    match s {
        Some(t) => Some(String::from_str(t.as_str())),
        None => None,
    }
}

/// What arguments ask for: several repositories at a time are cloned
/// silently.
pub fn effective(args: &GetArgs) -> (r: Effective)
    ensures
        r.update == args.update,
        r.ssh == args.ssh,
        r.shallow == args.shallow,
        r.look == args.look,
        r.silent == (args.silent || args.parallel),
        r.no_recursive == args.no_recursive,
        opt_string(r.branch) == opt_string(args.branch),
        r.bare == args.bare,
        opt_string(r.partial) == opt_string(args.partial),
        r.parallel == args.parallel,
{
    Effective {
        update: args.update,
        ssh: args.ssh,
        shallow: args.shallow,
        look: args.look,
        silent: args.silent || args.parallel,
        no_recursive: args.no_recursive,
        branch: copy_text(&args.branch),
        bare: args.bare,
        partial: copy_text(&args.partial),
        parallel: args.parallel,
    }
}

/// What can be read from the standard input.
#[derive(Debug)]
pub enum Input {
    /// It is a terminal and is not read.
    Terminal,
    /// The lines of it.
    Lines(Vec<String>),
}

/// Lines without the white space around them, and without the empty ones.
pub open spec fn trimmed_lines(lines: Seq<Seq<char>>) -> Seq<Seq<char>>
    decreases lines.len(),
{
    if lines.len() == 0 {
        Seq::empty()
    } else {
        let before = trimmed_lines(lines.drop_last());
        if stripped(lines.last()).len() > 0 {
            before.push(stripped(lines.last()))
        } else {
            before
        }
    }
}

/// The targets: those of the arguments, else the lines of the input.
pub open spec fn targets_of(given: Seq<Seq<char>>, input: Input) -> Seq<Seq<char>> {
    if given.len() > 0 {
        given
    } else {
        match input {
            Input::Terminal => Seq::empty(),
            Input::Lines(lines) => trimmed_lines(texts(lines@)),
        }
    }
}

/// The targets: those of the arguments, else the lines of the input.
pub fn collect_targets(args: &GetArgs, input: &Input) -> (r: Vec<String>)
    ensures
        texts(r@) == targets_of(texts(args.targets@), *input),
{
    let mut out: Vec<String> = Vec::new();
    assert(texts(out@) =~= Seq::empty());
    if args.targets.len() > 0 {
        let mut i: usize = 0;
        while i < args.targets.len()
            invariant
                i <= args.targets@.len(),
                out@.len() == i,
                forall|j: int| 0 <= j < i ==> (#[trigger] out@[j])@ == args.targets@[j]@,
            decreases args.targets@.len() - i,
        {
            out.push(String::from_str(args.targets[i].as_str()));
            i += 1;
        }
        assert(texts(out@) =~= texts(args.targets@));
        return out;
    }
    match input {
        Input::Terminal => {},
        Input::Lines(lines) => {
            let ghost all = texts(lines@);
            let mut i: usize = 0;
            assert(all.take(0) =~= Seq::empty());
            while i < lines.len()
                invariant
                    i <= lines@.len(),
                    all == texts(lines@),
                    texts(out@) == trimmed_lines(all.take(i as int)),
                decreases lines@.len() - i,
            {
                proof {
                    assert(all.take(i + 1).drop_last() =~= all.take(i as int));
                    assert(all.take(i + 1).last() == lines@[i as int]@);
                }
                let line = strip(lines[i].as_str());
                if !is_empty(line.as_str()) {
                    let ghost before = texts(out@);
                    let ghost added = line@;
                    out.push(line);
                    assert(texts(out@) =~= before.push(added));
                }
                i += 1;
            }
            assert(all.take(i as int) =~= all);
        },
    }
    out
}

/// What `scap get` is to do.
#[derive(Debug)]
pub struct GetPlan {
    pub effective: Effective,
    /// The targets, in order; at least one.
    pub targets: Vec<String>,
}

/// What `scap get` is to do, given what can be read from the standard input.
pub fn run(args: &GetArgs, input: &Input) -> (r: Result<GetPlan, CmdError>)
    ensures
        match r {
            Ok(plan) => {
                &&& is_git_vcs(opt_string(args.vcs))
                &&& texts(plan.targets@) == targets_of(texts(args.targets@), *input)
                &&& plan.targets@.len() > 0
                &&& plan.effective.update == args.update
                &&& plan.effective.ssh == args.ssh
                &&& plan.effective.shallow == args.shallow
                &&& plan.effective.look == args.look
                &&& plan.effective.silent == (args.silent || args.parallel)
                &&& plan.effective.no_recursive == args.no_recursive
                &&& opt_string(plan.effective.branch) == opt_string(args.branch)
                &&& plan.effective.bare == args.bare
                &&& opt_string(plan.effective.partial) == opt_string(args.partial)
                &&& plan.effective.parallel == args.parallel
            },
            Err(CmdError::NoTargets) => is_git_vcs(opt_string(args.vcs)) && targets_of(
                texts(args.targets@),
                *input,
            ).len() == 0,
            Err(e) => is_vcs_error(opt_string(args.vcs), e),
        },
{
    match check(args) {
        Ok(()) => {},
        Err(e) => return Err(e),
    }
    let targets = collect_targets(args, input);
    assert(texts(targets@).len() == targets@.len());
    if targets.len() == 0 {
        return Err(CmdError::NoTargets);
    }
    Ok(GetPlan { effective: effective(args), targets })
}

/// How many repositories are cloned at a time: as many as there are targets,
/// but at least one and at most [`PARALLEL_WORKERS`].
pub fn workers(targets: usize) -> (r: usize)
    ensures
        r == (if targets == 0 {
            1
        } else if targets < PARALLEL_WORKERS {
            targets as int
        } else {
            PARALLEL_WORKERS as int
        }),
{
    if targets == 0 {
        1
    } else if targets < PARALLEL_WORKERS {
        targets
    } else {
        PARALLEL_WORKERS
    }
}

/// The remote of a repository: the argument itself for one without a host.
pub open spec fn remote_of(repo: RepoView, ssh: bool) -> Seq<char> {
    if repo.host.len() == 0 {
        repo.original_input
    } else if ssh {
        repo.ssh_url
    } else {
        repo.https_url
    }
}

/// The remote of a repository.
pub fn remote(repo: &Repo, ssh: bool) -> (r: String)
    ensures
        r@ == remote_of(repo@, ssh),
{
    if is_empty(repo.host.as_str()) {
        String::from_str(repo.original_input.as_str())
    } else if ssh {
        String::from_str(repo.ssh_url.as_str())
    } else {
        String::from_str(repo.https_url.as_str())
    }
}

/// What is done about a target.
#[derive(Debug)]
pub enum TargetStep {
    /// The repository is there and stays as it is.
    Skip,
    Update(UpdateOptions),
    Clone(CloneOptions),
}

/// What is done about a target, given whether its repository is there.
pub fn process_target(args: &Effective, is_repo: bool) -> (r: TargetStep)
    ensures
        match r {
            TargetStep::Skip => is_repo && !args.update,
            TargetStep::Update(opts) => is_repo && args.update && opts == (UpdateOptions {
                bare: args.bare,
                recursive: !args.no_recursive,
                silent: args.silent,
            }),
            TargetStep::Clone(opts) => {
                &&& !is_repo
                &&& opts.shallow == args.shallow
                &&& opt_string(opts.branch) == opt_string(args.branch)
                &&& opts.recursive == !args.no_recursive
                &&& opts.bare == args.bare
                &&& opt_string(opts.partial) == opt_string(args.partial)
                &&& opts.silent == args.silent
            },
        },
{
    if is_repo {
        if args.update {
            TargetStep::Update(
                UpdateOptions {
                    bare: args.bare,
                    recursive: !args.no_recursive,
                    silent: args.silent,
                },
            )
        } else {
            TargetStep::Skip
        }
    } else {
        TargetStep::Clone(
            CloneOptions {
                shallow: args.shallow,
                branch: copy_text(&args.branch),
                recursive: !args.no_recursive,
                bare: args.bare,
                partial: copy_text(&args.partial),
                silent: args.silent,
            },
        )
    }
}

/// What is done next about the targets.
#[derive(Debug, Clone, Copy, PartialEq, Eq, Structural)]
pub enum GetStep {
    /// Get the target with this number.
    Get(usize),
    /// This target could not be got: the command fails.
    Failed(usize),
    /// Open a shell in the repository of the first target.
    Look,
    /// Nothing is left to do.
    Done,
}

/// The number of the first failure.
pub open spec fn first_failure(outcomes: Seq<bool>) -> Option<int>
    decreases outcomes.len(),
{
    if outcomes.len() == 0 {
        None
    } else {
        match first_failure(outcomes.drop_last()) {
            Some(i) => Some(i),
            None => if outcomes.last() {
                None
            } else {
                Some(outcomes.len() - 1)
            },
        }
    }
}

/// What is done next about `count` targets, given which of those that were
/// begun were got. They are begun in order. A failure ends the command,
/// unless several are got at a time: then it is only reported.
pub open spec fn step_after(
    parallel: bool,
    look: bool,
    count: int,
    outcomes: Seq<bool>,
) -> GetStep {
    if !parallel && first_failure(outcomes) is Some {
        GetStep::Failed(first_failure(outcomes)->0 as usize)
    } else if outcomes.len() < count {
        GetStep::Get(outcomes.len() as usize)
    } else if look {
        GetStep::Look
    } else {
        GetStep::Done
    }
}

/// What is done next about the targets, given which of those that were begun
/// were got.
pub fn next(plan: &GetPlan, outcomes: &[bool]) -> (r: GetStep)
    ensures
        r == step_after(
            plan.effective.parallel,
            plan.effective.look,
            plan.targets@.len() as int,
            outcomes@,
        ),
{
    let mut i: usize = 0;
    assert(outcomes@.take(0) =~= Seq::empty());
    while i < outcomes.len()
        invariant
            i <= outcomes@.len(),
            first_failure(outcomes@.take(i as int)) is None || plan.effective.parallel,
        decreases outcomes@.len() - i,
    {
        assert(outcomes@.take(i + 1).drop_last() =~= outcomes@.take(i as int));
        if !outcomes[i] && !plan.effective.parallel {
            proof {
                lemma_failure_stands(outcomes@, i + 1);
            }
            return GetStep::Failed(i);
        }
        i += 1;
    }
    assert(outcomes@.take(i as int) =~= outcomes@);
    if outcomes.len() < plan.targets.len() {
        GetStep::Get(outcomes.len())
    } else if plan.effective.look {
        GetStep::Look
    } else {
        GetStep::Done
    }
}

/// The first failure of a course stays the first of any longer one.
proof fn lemma_failure_stands(outcomes: Seq<bool>, n: int)
    requires
        0 <= n <= outcomes.len(),
        first_failure(outcomes.take(n)) is Some,
    ensures
        first_failure(outcomes) == first_failure(outcomes.take(n)),
    decreases outcomes.len(),
{
    if n < outcomes.len() {
        assert(outcomes.drop_last().take(n) =~= outcomes.take(n));
        lemma_failure_stands(outcomes.drop_last(), n);
    } else {
        assert(outcomes.take(n) =~= outcomes);
    }
}

/// The shell that is opened: the one that the environment names, else the
/// system's.
pub fn look_shell(named: Option<&str>) -> (r: String)
    ensures
        r@ == match named {
            Some(s) => s@,
            None => "/bin/sh"@,
        },
{
    match named {
        Some(s) => String::from_str(s),
        None => String::from_str("/bin/sh"),
    }
}

/// What precedes an error about a target.
pub fn failed_to_get(target: &str) -> (r: String)
    ensures
        r@ == "failed to get "@ + quoted(target@),
{
    String::from_str("failed to get ").concat(debug_text(target).as_str())
}

/// What a shell in a repository is told of it.
pub fn look_name(repo: &Repo) -> (r: String)
    ensures
        r@ == repo@.host + "/"@ + repo@.owner + "/"@ + repo@.name,
{
    String::from_str(repo.host.as_str()).concat("/").concat(repo.owner.as_str()).concat("/").concat(
        repo.name.as_str(),
    )
}

/// The directory that holds a destination, and the working directory for one
/// without.
pub open spec fn dir_of(dest: Seq<u8>) -> Seq<u8> {
    match parent_dir(dest) {
        Some(d) => d,
        None => encode_utf8("."@),
    }
}

/// The name of a destination, and `scap` for one without.
pub open spec fn name_of(dest: Seq<u8>) -> Seq<u8> {
    match text_name(dest) {
        Some(n) => n,
        None => encode_utf8("scap"@),
    }
}

fn dir_and_name(dest: &[u8]) -> (r: (Vec<u8>, Vec<u8>))
    ensures
        r.0@ == dir_of(dest@),
        r.1@ == name_of(dest@),
{
    let dir = match parent(dest) {
        Some(d) => d,
        None => slice_to_vec(".".as_bytes()),
    };
    let name = match utf8_name(dest) {
        Some(n) => n,
        None => slice_to_vec("scap".as_bytes()),
    };
    (dir, name)
}

/// The file that is locked while a destination is cloned.
pub open spec fn lock_of(dest: Seq<u8>) -> Seq<u8> {
    joined_path(dir_of(dest), encode_utf8(".scap-lock-"@) + name_of(dest))
}

/// The file that is locked while a destination is cloned.
pub fn lock_path_for(dest: &[u8]) -> (r: Vec<u8>)
    ensures
        r@ == lock_of(dest@),
{
    let (dir, name) = dir_and_name(dest);
    let mut file = slice_to_vec(".scap-lock-".as_bytes());
    push_all(&mut file, name.as_slice());
    join(dir.as_slice(), file.as_slice())
}

/// The directory that a destination is cloned in.
pub open spec fn tmp_of(dest: Seq<u8>, pid: u32) -> Seq<u8> {
    joined_path(
        dir_of(dest),
        name_of(dest) + encode_utf8(".tmp-"@) + encode_utf8(decimal(pid as nat)),
    )
}

/// The directory that a destination is cloned in.
pub fn tmp_path_for(dest: &[u8], pid: u32) -> (r: Vec<u8>)
    ensures
        r@ == tmp_of(dest@, pid),
{
    let (dir, name) = dir_and_name(dest);
    let mut file = name;
    push_all(&mut file, ".tmp-".as_bytes());
    push_all(&mut file, decimal_text(pid as u64).as_str().as_bytes());
    join(dir.as_slice(), file.as_slice())
}

/// How far a clone has come. Each state stands for what is to be done in it.
#[derive(Debug, Clone, Copy, PartialEq, Eq, Structural)]
pub enum CloneState {
    /// Make the directory of the lock file.
    LockDir,
    /// Open the lock file.
    OpenLock,
    /// Lock it, without waiting.
    TryLock,
    /// Make the directory of the temporary clone.
    TmpDir,
    /// Clone into the temporary directory.
    Clone,
    /// Make the directory of the destination.
    DestDir,
    /// Rename the temporary directory to the destination.
    Rename,
    /// Remove the temporary directory.
    RemoveTmp,
    /// Unlock the lock file.
    Unlock { failed: bool },
    /// Remove the lock file.
    RemoveLock { failed: bool },
    /// Nothing is left to do.
    Finished { failed: bool },
    /// Another process holds the lock: the program ends.
    Busy,
    /// There is no lock file: the clone fails before it began.
    NoLock,
}

/// What is to be done after a state, given whether what it stands for was
/// done.
pub open spec fn after(state: CloneState, ok: bool) -> CloneState {
    match state {
        CloneState::LockDir => if ok {
            CloneState::OpenLock
        } else {
            CloneState::NoLock
        },
        CloneState::OpenLock => if ok {
            CloneState::TryLock
        } else {
            CloneState::NoLock
        },
        CloneState::TryLock => if ok {
            CloneState::TmpDir
        } else {
            CloneState::Busy
        },
        CloneState::TmpDir => if ok {
            CloneState::Clone
        } else {
            CloneState::RemoveTmp
        },
        CloneState::Clone => if ok {
            CloneState::DestDir
        } else {
            CloneState::RemoveTmp
        },
        CloneState::DestDir => if ok {
            CloneState::Rename
        } else {
            CloneState::RemoveTmp
        },
        CloneState::Rename => if ok {
            CloneState::Unlock { failed: false }
        } else {
            CloneState::RemoveTmp
        },
        CloneState::RemoveTmp => CloneState::Unlock { failed: true },
        CloneState::Unlock { failed } => CloneState::RemoveLock { failed },
        CloneState::RemoveLock { failed } => CloneState::Finished { failed },
        CloneState::Finished { failed } => CloneState::Finished { failed },
        CloneState::Busy => CloneState::Busy,
        CloneState::NoLock => CloneState::NoLock,
    }
}

/// What is to be done after a state, given whether what it stands for was
/// done.
pub fn advance(state: CloneState, ok: bool) -> (r: CloneState)
    ensures
        r == after(state, ok),
{
    match state {
        CloneState::LockDir => if ok {
            CloneState::OpenLock
        } else {
            CloneState::NoLock
        },
        CloneState::OpenLock => if ok {
            CloneState::TryLock
        } else {
            CloneState::NoLock
        },
        CloneState::TryLock => if ok {
            CloneState::TmpDir
        } else {
            CloneState::Busy
        },
        CloneState::TmpDir => if ok {
            CloneState::Clone
        } else {
            CloneState::RemoveTmp
        },
        CloneState::Clone => if ok {
            CloneState::DestDir
        } else {
            CloneState::RemoveTmp
        },
        CloneState::DestDir => if ok {
            CloneState::Rename
        } else {
            CloneState::RemoveTmp
        },
        CloneState::Rename => if ok {
            CloneState::Unlock { failed: false }
        } else {
            CloneState::RemoveTmp
        },
        CloneState::RemoveTmp => CloneState::Unlock { failed: true },
        CloneState::Unlock { failed } => CloneState::RemoveLock { failed },
        CloneState::RemoveLock { failed } => CloneState::Finished { failed },
        CloneState::Finished { failed } => CloneState::Finished { failed },
        CloneState::Busy => CloneState::Busy,
        CloneState::NoLock => CloneState::NoLock,
    }
}

/// Whether nothing follows a state.
pub open spec fn is_last(state: CloneState) -> bool {
    state is Finished || state is Busy || state is NoLock
}

/// The state after as many steps as there are outcomes.
pub open spec fn state_after(outcomes: Seq<bool>) -> CloneState
    decreases outcomes.len(),
{
    if outcomes.len() == 0 {
        CloneState::LockDir
    } else {
        after(state_after(outcomes.drop_last()), outcomes.last())
    }
}

/// Whether, in a course of outcomes, a state was reached and done.
pub open spec fn was_done(outcomes: Seq<bool>, state: CloneState) -> bool {
    exists|n: int|
        0 <= n < outcomes.len() && #[trigger] state_after(outcomes.take(n)) == state && outcomes[n]
}

/// Whether, in a course of outcomes, a state was reached and tried.
pub open spec fn was_tried(outcomes: Seq<bool>, state: CloneState) -> bool {
    exists|n: int| 0 <= n < outcomes.len() && #[trigger] state_after(outcomes.take(n)) == state
}

/// What is true of every state: which of the earlier ones were done.
pub open spec fn holds_in(state: CloneState, outcomes: Seq<bool>) -> bool {
    let locked = was_done(outcomes, CloneState::TryLock);
    let moved = was_done(outcomes, CloneState::Clone) && was_done(outcomes, CloneState::Rename);
    match state {
        CloneState::LockDir | CloneState::OpenLock | CloneState::TryLock => !was_tried(
            outcomes,
            CloneState::Rename,
        ),
        CloneState::Busy | CloneState::NoLock => !locked && !was_tried(outcomes, CloneState::Clone)
            && !was_tried(outcomes, CloneState::Rename),
        CloneState::TmpDir => locked,
        CloneState::Clone => locked,
        CloneState::DestDir => locked && was_done(outcomes, CloneState::Clone),
        CloneState::Rename => locked && was_done(outcomes, CloneState::Clone),
        CloneState::RemoveTmp => locked && !was_done(outcomes, CloneState::Rename),
        CloneState::Unlock { failed } => locked && (failed ==> was_tried(
            outcomes,
            CloneState::RemoveTmp,
        ) && !was_done(outcomes, CloneState::Rename)) && (!failed ==> moved),
        CloneState::RemoveLock { failed } => locked && (failed ==> was_tried(
            outcomes,
            CloneState::RemoveTmp,
        ) && !was_done(outcomes, CloneState::Rename)) && (!failed ==> moved) && was_tried(
            outcomes,
            CloneState::Unlock { failed },
        ),
        CloneState::Finished { failed } => locked && (failed ==> was_tried(
            outcomes,
            CloneState::RemoveTmp,
        ) && !was_done(outcomes, CloneState::Rename)) && (!failed ==> moved) && was_tried(
            outcomes,
            CloneState::Unlock { failed },
        ) && was_tried(outcomes, CloneState::RemoveLock { failed }),
    }
}

/// What was done in a course was done in any longer one.
proof fn lemma_course_grows(outcomes: Seq<bool>, ok: bool)
    ensures
        forall|s: CloneState| #[trigger]
            was_tried(outcomes.push(ok), s) == (was_tried(outcomes, s) || state_after(outcomes)
                == s),
        forall|s: CloneState| #[trigger]
            was_done(outcomes.push(ok), s) == (was_done(outcomes, s) || (state_after(outcomes) == s
                && ok)),
{
    let longer = outcomes.push(ok);
    let n = outcomes.len() as int;
    assert(longer.take(n) =~= outcomes);
    assert forall|k: int| 0 <= k <= n implies longer.take(k) == #[trigger] outcomes.take(k) by {
        assert(longer.take(k) =~= outcomes.take(k));
    }
    assert forall|s: CloneState| #[trigger]
        was_tried(longer, s) == (was_tried(outcomes, s) || state_after(outcomes) == s) by {
        if was_tried(outcomes, s) {
            let k = choose|k: int|
                0 <= k < outcomes.len() && #[trigger] state_after(outcomes.take(k)) == s;
            assert(state_after(longer.take(k)) == s);
        }
        if state_after(outcomes) == s {
            assert(state_after(longer.take(n)) == s);
        }
        if was_tried(longer, s) {
            let k = choose|k: int|
                0 <= k < longer.len() && #[trigger] state_after(longer.take(k)) == s;
            if k < n {
                assert(state_after(outcomes.take(k)) == s);
            }
        }
    }
    assert forall|s: CloneState| #[trigger]
        was_done(longer, s) == (was_done(outcomes, s) || (state_after(outcomes) == s && ok)) by {
        if was_done(outcomes, s) {
            let k = choose|k: int|
                0 <= k < outcomes.len() && #[trigger] state_after(outcomes.take(k)) == s
                    && outcomes[k];
            assert(state_after(longer.take(k)) == s && longer[k]);
        }
        if state_after(outcomes) == s && ok {
            assert(state_after(longer.take(n)) == s && longer[n]);
        }
        if was_done(longer, s) {
            let k = choose|k: int|
                0 <= k < longer.len() && #[trigger] state_after(longer.take(k)) == s && longer[k];
            if k < n {
                assert(state_after(outcomes.take(k)) == s && outcomes[k]);
            }
        }
    }
}

/// Which steps a state can follow: what comes later has not been tried.
pub open spec fn not_yet(state: CloneState, outcomes: Seq<bool>) -> bool {
    match state {
        CloneState::LockDir | CloneState::OpenLock | CloneState::TryLock => !was_tried(
            outcomes,
            CloneState::TryLock,
        ) && !was_tried(outcomes, CloneState::Clone) && !was_tried(outcomes, CloneState::Rename),
        CloneState::TmpDir | CloneState::Clone => !was_tried(outcomes, CloneState::Clone)
            && !was_tried(outcomes, CloneState::Rename),
        CloneState::DestDir | CloneState::Rename => !was_tried(outcomes, CloneState::Rename),
        _ => true,
    }
}

/// Every course keeps what is true of its state.
proof fn lemma_course(outcomes: Seq<bool>)
    ensures
        holds_in(state_after(outcomes), outcomes),
        not_yet(state_after(outcomes), outcomes),
    decreases outcomes.len(),
{
    if outcomes.len() > 0 {
        let shorter = outcomes.drop_last();
        lemma_course(shorter);
        lemma_course_grows(shorter, outcomes.last());
        assert(shorter.push(outcomes.last()) =~= outcomes);
    }
}

/// How a clone ends. Where it ends well, the repository was cloned beside its
/// destination and moved there whole. Where it fails, nothing was moved, and
/// what was cloned is removed. Either way the lock was held, was given back,
/// and its file removed.
pub proof fn law_clone_is_whole_or_absent(outcomes: Seq<bool>)
    ensures
        state_after(outcomes) matches CloneState::Finished { failed } ==> {
            &&& was_done(outcomes, CloneState::TryLock)
            &&& was_tried(outcomes, CloneState::Unlock { failed })
            &&& was_tried(outcomes, CloneState::RemoveLock { failed })
            &&& !failed ==> was_done(outcomes, CloneState::Clone) && was_done(
                outcomes,
                CloneState::Rename,
            )
            &&& failed ==> !was_done(outcomes, CloneState::Rename) && was_tried(
                outcomes,
                CloneState::RemoveTmp,
            )
        },
{
    lemma_course(outcomes);
}

/// Nothing is cloned or moved without the lock: where another process holds
/// it, or there is none, neither was tried.
pub proof fn law_no_clone_without_the_lock(outcomes: Seq<bool>)
    ensures
        state_after(outcomes) is Busy || state_after(outcomes) is NoLock ==> !was_tried(
            outcomes,
            CloneState::Clone,
        ) && !was_tried(outcomes, CloneState::Rename),
{
    lemma_course(outcomes);
}

/// How many steps are left at most.
pub open spec fn steps_left(state: CloneState) -> nat {
    match state {
        CloneState::LockDir => 10,
        CloneState::OpenLock => 9,
        CloneState::TryLock => 8,
        CloneState::TmpDir => 7,
        CloneState::Clone => 6,
        CloneState::DestDir => 5,
        CloneState::Rename => 4,
        CloneState::RemoveTmp => 3,
        CloneState::Unlock { failed } => 2,
        CloneState::RemoveLock { failed } => 1,
        CloneState::Finished { failed } => 0,
        CloneState::Busy => 0,
        CloneState::NoLock => 0,
    }
}

/// A clone comes to an end: every step leaves fewer, whatever its outcome.
pub proof fn law_clone_ends(outcomes: Seq<bool>)
    ensures
        steps_left(state_after(outcomes)) + outcomes.len() <= 10 || is_last(state_after(outcomes)),
        outcomes.len() >= 10 ==> is_last(state_after(outcomes)),
    decreases outcomes.len(),
{
    if outcomes.len() > 0 {
        law_clone_ends(outcomes.drop_last());
    }
}

/// The decimal digits of a number are ASCII and stand for it.
pub proof fn lemma_decimal_digits(n: nat)
    ensures
        vstd::utf8::is_ascii_chars(decimal(n)),
        is_decimal(encode_utf8(decimal(n))),
        decimal_value(encode_utf8(decimal(n))) == n,
        is_digit(encode_utf8(decimal(n))[0]),
    decreases n,
{
    let s = decimal(n);
    let b = encode_utf8(s);
    if n < 10 {
        let d = (0x30 + n) as char;
        assert(s =~= seq![d]);
        assert(d as u32 == 0x30 + n);
        vstd::utf8::is_ascii_chars_encode_utf8(s);
        assert(b.len() == 1);
        assert(b[0] == 0x30 + n);
        assert(b.drop_last() =~= Seq::empty());
        assert(decimal_value(b.drop_last()) == 0);
    } else {
        lemma_decimal_digits(n / 10);
        let shorter = decimal(n / 10);
        let d = (0x30 + n % 10) as char;
        assert(d as u32 == 0x30 + n % 10);
        assert(s == shorter.push(d));
        assert(vstd::utf8::is_ascii_chars(s)) by {
            assert forall|i: int| 0 <= i < s.len() implies '\0' <= #[trigger] s[i] <= '\u{7f}' by {
                if i < shorter.len() {
                    assert(s[i] == shorter[i]);
                }
            }
        }
        vstd::utf8::is_ascii_chars_encode_utf8(s);
        vstd::utf8::is_ascii_chars_encode_utf8(shorter);
        let a = encode_utf8(shorter);
        assert(b.drop_last() =~= a) by {
            assert forall|i: int| 0 <= i < a.len() implies b[i] == a[i] by {
                assert(s[i] == shorter[i]);
            }
        }
        assert(b.last() == 0x30 + n % 10);
        assert forall|i: int| 0 <= i < b.len() implies is_digit(#[trigger] b[i]) by {
            if i < a.len() {
                assert(b[i] == a[i]);
                assert(is_digit(a[i]));
            }
        }
        assert(b[0] == a[0]);
    }
}

/// A directory that a process clones in is recognised as that process's: once
/// the process is gone, it counts as left behind, and not before.
pub proof fn law_temporary_clone_is_recognised(name: Seq<u8>, pid: u32, answered: bool)
    requires
        0 < pid <= 0x7fff_ffff,
    ensures
        maker_of(name, name + encode_utf8(".tmp-"@) + encode_utf8(decimal(pid as nat))) == Some(
            pid as int,
        ),
        is_stale(
            name,
            name + encode_utf8(".tmp-"@) + encode_utf8(decimal(pid as nat)),
            answered,
        ) == !answered,
{
    lemma_decimal_digits(pid as nat);
    let digits = encode_utf8(decimal(pid as nat));
    let prefix = name + encode_utf8(".tmp-"@);
    let sibling = prefix + digits;
    assert(sibling.subrange(0, prefix.len() as int) =~= prefix);
    assert(sibling.skip(prefix.len() as int) =~= digits);
}

} // verus!
