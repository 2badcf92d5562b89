//! Making a repository.

use vstd::prelude::*;

use crate::cli::CreateArgs;
use crate::cmd::{accepts_vcs, is_git_vcs, is_not_exist_or_empty, CmdError, DirState};
use crate::text::{is_empty, lossy_text, opt_text, shown_path, texts};
use crate::url::opt_string;

verus! {

/// Whether an error says that a version control system is not git.
pub open spec fn is_vcs_error(vcs: Option<Seq<char>>, e: CmdError) -> bool {
    !is_git_vcs(vcs) && (e matches CmdError::UnsupportedVcs(shown) && shown@ == "\""@ + vcs->0
        + "\""@)
}

/// Accepts the names of git and rejects every other version control system,
/// naming it.
pub fn validate_vcs(vcs: Option<&str>) -> (r: Result<(), CmdError>)
    ensures
        match r {
            Ok(()) => is_git_vcs(opt_text(vcs)),
            Err(e) => is_vcs_error(opt_text(vcs), e),
        },
{
    if accepts_vcs(vcs) {
        return Ok(());
    }
    match vcs {
        Some(v) => Err(CmdError::UnsupportedVcs(String::from_str("\"").concat(v).concat("\""))),
        None => Ok(()),
    }
}

/// Accepts a target that is not empty, with git.
pub fn check(args: &CreateArgs) -> (r: Result<(), CmdError>)
    ensures
        match r {
            Ok(()) => args.target@.len() > 0 && is_git_vcs(opt_string(args.vcs)),
            Err(e) => if args.target@.len() == 0 {
                e is TargetRequired
            } else {
                is_vcs_error(opt_string(args.vcs), e)
            },
        },
{
    if is_empty(args.target.as_str()) {
        return Err(CmdError::TargetRequired);
    }
    match &args.vcs {
        Some(v) => validate_vcs(Some(v.as_str())),
        None => Ok(()),
    }
}

/// What is done to make a repository.
#[derive(Debug)]
pub struct CreatePlan {
    /// The arguments with which git runs in the destination, once that is
    /// there.
    pub init: Vec<String>,
    /// What is printed in the end.
    pub prints: String,
}

/// The arguments with which git makes a repository.
pub open spec fn init_args(bare: bool) -> Seq<Seq<char>> {
    if bare {
        seq!["init"@, "--bare"@]
    } else {
        seq!["init"@]
    }
}

/// What is done to make a repository at a destination, given what is there:
/// it has to be free.
pub fn run(args: &CreateArgs, dest: &[u8], state: DirState) -> (r: Result<CreatePlan, CmdError>)
    ensures
        match r {
            Ok(plan) => {
                &&& args.target@.len() > 0
                &&& is_git_vcs(opt_string(args.vcs))
                &&& state is Missing || state is Empty
                &&& texts(plan.init@) == init_args(args.bare)
                &&& plan.prints@ == shown_path(dest@) + "\n"@
            },
            Err(CmdError::NotADirectory(p)) => args.target@.len() > 0 && is_git_vcs(
                opt_string(args.vcs),
            ) && state is NotADirectory && p@ == dest@,
            Err(CmdError::NotEmpty(p)) => args.target@.len() > 0 && is_git_vcs(
                opt_string(args.vcs),
            ) && state is Occupied && p@ == dest@,
            Err(e) => if args.target@.len() == 0 {
                e is TargetRequired
            } else {
                is_vcs_error(opt_string(args.vcs), e)
            },
        },
{
    match check(args) {
        Ok(()) => {},
        Err(e) => return Err(e),
    }
    match is_not_exist_or_empty(dest, state) {
        Ok(free) => {
            if !free {
                return Err(CmdError::NotEmpty(vstd::slice::slice_to_vec(dest)));
            }
        },
        Err(e) => return Err(e),
    }
    let mut init: Vec<String> = Vec::new();
    init.push(String::from_str("init"));
    if args.bare {
        init.push(String::from_str("--bare"));
    }
    assert(texts(init@) =~= init_args(args.bare));
    Ok(CreatePlan { init, prints: lossy_text(dest).concat("\n") })
}

/// Git is told to make a repository, and a bare one if and only if that is
/// asked for.
pub proof fn law_init(bare: bool)
    ensures
        init_args(bare).len() > 0,
        init_args(bare)[0] == "init"@,
        init_args(bare).contains("--bare"@) == bare,
        forall|i: int|
            1 <= i < init_args(bare).len() ==> #[trigger] init_args(bare)[i] == "--bare"@,
{
    reveal_strlit("init");
    reveal_strlit("--bare");
    if bare {
        assert(init_args(bare)[1] == "--bare"@);
    }
}

/// A repository is made only where nothing is: at a place that is missing or
/// an empty directory.
pub proof fn law_nothing_is_overwritten(
    args: &CreateArgs,
    dest: &[u8],
    state: DirState,
    r: Result<CreatePlan, CmdError>,
)
    requires
        call_ensures(run, (args, dest, state), r),
    ensures
        r is Ok ==> state is Missing || state is Empty,
        r is Ok <==> args.target@.len() > 0 && is_git_vcs(opt_string(args.vcs)) && (
        state is Missing || state is Empty),
        r matches Ok(plan) ==> texts(plan.init@).contains("--bare"@) == args.bare,
{
    law_init(args.bare);
}

} // verus!
