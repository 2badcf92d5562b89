//! The command line.

use vstd::prelude::*;

use crate::cmd::{create, get, is_git_vcs, is_vcs_error, list, rm, CmdError};
use crate::url::opt_string;

pub use crate::cmd::list::ListArgs;

verus! {

/// A command line.
#[derive(Debug)]
pub struct Cli {
    pub cmd: Cmd,
}

/// A command with its arguments.
#[derive(Debug)]
pub enum Cmd {
    Get(GetArgs),
    List(ListArgs),
    Rm(RmArgs),
    Root(RootArgs),
    Create(CreateArgs),
}

/// The arguments of `scap get`.
#[derive(Debug)]
pub struct GetArgs {
    /// Bring a repository up to date that is there.
    pub update: bool,
    /// Clone over ssh.
    pub ssh: bool,
    /// Clone without history.
    pub shallow: bool,
    /// Open a shell in the first repository.
    pub look: bool,
    /// Throw away what git prints.
    pub silent: bool,
    /// Leave submodules alone.
    pub no_recursive: bool,
    /// Clone only this branch.
    pub branch: Option<String>,
    /// Make a bare repository.
    pub bare: bool,
    /// Clone without blobs (`blobless`) or trees (`treeless`).
    pub partial: Option<String>,
    /// Clone several repositories at a time.
    pub parallel: bool,
    /// The version control system.
    pub vcs: Option<String>,
    /// The repositories.
    pub targets: Vec<String>,
}

/// The arguments of `scap rm`.
#[derive(Debug)]
pub struct RmArgs {
    /// Say what would be removed.
    pub dry_run: bool,
    /// The repository is bare.
    pub bare: bool,
    pub target: String,
}

/// The arguments of `scap root`.
#[derive(Debug)]
pub struct RootArgs {
    /// Print every root.
    pub all: bool,
}

/// The arguments of `scap create`.
#[derive(Debug)]
pub struct CreateArgs {
    /// The version control system.
    pub vcs: Option<String>,
    /// Make a bare repository.
    pub bare: bool,
    pub target: String,
}

/// Whether a command's arguments are refused before anything else is looked
/// at, and with what.
pub open spec fn refuses(cmd: Cmd, e: CmdError) -> bool {
    match cmd {
        Cmd::Get(args) => is_vcs_error(opt_string(args.vcs), e),
        Cmd::List(args) => is_vcs_error(opt_string(args.vcs), e),
        Cmd::Rm(args) => args.target@.len() == 0 && e is TargetRequired,
        Cmd::Root(args) => false,
        Cmd::Create(args) => if args.target@.len() == 0 {
            e is TargetRequired
        } else {
            create::is_vcs_error(opt_string(args.vcs), e)
        },
    }
}

/// Whether a command's arguments are accepted.
pub open spec fn accepts(cmd: Cmd) -> bool {
    match cmd {
        Cmd::Get(args) => is_git_vcs(opt_string(args.vcs)),
        Cmd::List(args) => is_git_vcs(opt_string(args.vcs)),
        Cmd::Rm(args) => args.target@.len() > 0,
        Cmd::Root(args) => true,
        Cmd::Create(args) => args.target@.len() > 0 && is_git_vcs(opt_string(args.vcs)),
    }
}

/// The command to run, whose arguments its own module accepts before anything
/// else is looked at.
pub fn dispatch(cli: Cli) -> (r: Result<Cmd, CmdError>)
    ensures
        match r {
            Ok(cmd) => cmd == cli.cmd && accepts(cmd),
            Err(e) => !accepts(cli.cmd) && refuses(cli.cmd, e),
        },
{
    let checked = match &cli.cmd {
        Cmd::Get(args) => get::check(args),
        Cmd::List(args) => list::check(args),
        Cmd::Rm(args) => rm::check(args),
        Cmd::Root(_) => Ok(()),
        Cmd::Create(args) => create::check(args),
    };
    match checked {
        Ok(()) => Ok(cli.cmd),
        Err(e) => Err(e),
    }
}

/// Every command line is either accepted or refused, and one that is refused
/// is refused for one reason only; printing roots is never refused, and a
/// version control system is looked at only where there is a target.
pub proof fn law_accepted_or_refused(cmd: Cmd, a: CmdError, b: CmdError)
    ensures
        refuses(cmd, a) ==> !accepts(cmd),
        refuses(cmd, a) && refuses(cmd, b) ==> a.says() == b.says(),
        cmd is Root ==> accepts(cmd),
        cmd matches Cmd::Get(args) ==> (args.vcs is None ==> accepts(cmd)),
        cmd matches Cmd::List(args) ==> (args.vcs is None ==> accepts(cmd)),
        cmd matches Cmd::Rm(args) ==> (args.target@.len() > 0) == accepts(cmd),
        cmd matches Cmd::Create(args) ==> (args.vcs is None ==> (args.target@.len() > 0)
            == accepts(cmd)),
{
}

} // verus!
