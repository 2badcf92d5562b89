//! A manager for working copies of remote git repositories: what a repository
//! argument names, where its working copy lives, which configuration is in
//! force, and which repositories a root holds.
//!
//! Everything here computes on plain values. Paths and configuration values
//! are byte strings, because that is what a unix filesystem and a gitconfig
//! hold; text that has to be UTF-8 is `String`.

pub mod bytes;
pub mod cli;
pub mod cmd;
pub mod config;
pub mod index;
pub mod logging;
pub mod path;
pub mod paths;
pub mod sorting;
pub mod text;
pub mod url;
pub mod vcs;
pub mod walk;

use vstd::prelude::*;

use crate::cli::{accepts, dispatch, refuses, Cli, Cmd};
use crate::cmd::CmdError;

pub use crate::url::{from_input as parse_repo_input, Repo, UrlError};

verus! {

/// The command that a command line asks for, once its arguments are accepted.
pub fn run(cli: Cli) -> (r: Result<Cmd, CmdError>)
    ensures
        match r {
            Ok(cmd) => cmd == cli.cmd && accepts(cmd),
            Err(e) => !accepts(cli.cmd) && refuses(cli.cmd, e),
        },
{
    dispatch(cli)
}

} // verus!
