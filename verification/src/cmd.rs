//! The commands: what their arguments ask for, what they do next, and what
//! they print.

use vstd::prelude::*;
use vstd::slice::slice_to_vec;

use crate::config::{root_for_url, url_root, ConfigError, ConfigErrorView, ConfigSnapshot};
use crate::path::{components, dest_path, path_of};
use crate::paths::joined_path;
use crate::text::{debug_text, lossy_text, opt_text, quoted, shown_path, text_eq};
use crate::url::{from_input, repo_of, result_view, Repo, UrlError};

pub mod create;
pub mod get;
pub mod list;
pub mod rm;
pub mod root;

verus! {

/// Why a command cannot go on.
#[derive(Debug)]
pub enum CmdError {
    /// `--vcs` names something other than git; holds the name as it is shown.
    UnsupportedVcs(String),
    /// The target is empty.
    TargetRequired,
    /// `get` was given nothing to get.
    NoTargets,
    /// The destination is there and is not a directory.
    NotADirectory(Vec<u8>),
    /// The destination is there and holds something.
    NotEmpty(Vec<u8>),
    /// The destination is missing or empty.
    Missing(Vec<u8>),
    /// The question was not answered with `y`.
    Aborted,
}

impl CmdError {
    /// What the error says.
    pub open spec fn says(&self) -> Seq<char> {
        match self {
            CmdError::UnsupportedVcs(shown) => "unsupported VCS: "@ + shown@
                + " (v1 supports git only; see issue tracker for non-git)"@,
            CmdError::TargetRequired => "repository name is required"@,
            CmdError::NoTargets =>
                "no target args specified. see `scap get -h` for more details"@,
            CmdError::NotADirectory(path) => shown_path(path@)
                + " exists but is not a directory"@,
            CmdError::NotEmpty(path) => "directory \""@ + shown_path(path@)
                + "\" already exists and not empty"@,
            CmdError::Missing(path) => "directory \""@ + shown_path(path@)
                + "\" does not exist"@,
            CmdError::Aborted => "aborted"@,
        }
    }

    /// What the error says.
    pub fn message(&self) -> (r: String)
        ensures
            r@ == self.says(),
    {
        match self {
            CmdError::UnsupportedVcs(shown) => {
                String::from_str("unsupported VCS: ").concat(shown.as_str()).concat(
                    " (v1 supports git only; see issue tracker for non-git)",
                )
            },
            CmdError::TargetRequired => String::from_str("repository name is required"),
            CmdError::NoTargets => String::from_str(
                "no target args specified. see `scap get -h` for more details",
            ),
            CmdError::NotADirectory(path) => {
                lossy_text(path.as_slice()).concat(" exists but is not a directory")
            },
            CmdError::NotEmpty(path) => {
                String::from_str("directory \"").concat(
                    lossy_text(path.as_slice()).as_str(),
                ).concat("\" already exists and not empty")
            },
            CmdError::Missing(path) => {
                String::from_str("directory \"").concat(
                    lossy_text(path.as_slice()).as_str(),
                ).concat("\" does not exist")
            },
            CmdError::Aborted => String::from_str("aborted"),
        }
    }
}

/// Whether a `--vcs` value is one of the names of git.
pub open spec fn is_git_vcs(vcs: Option<Seq<char>>) -> bool {
    match vcs {
        None => true,
        Some(v) => v == "git"@ || v == "github"@ || v == "codecommit"@,
    }
}

/// Whether a `--vcs` value is one of the names of git.
pub fn accepts_vcs(vcs: Option<&str>) -> (r: bool)
    ensures
        r == is_git_vcs(crate::text::opt_text(vcs)),
{
    match vcs {
        None => true,
        Some(v) => text_eq(v, "git") || text_eq(v, "github") || text_eq(v, "codecommit"),
    }
}

/// Whether an error says that a version control system is not git.
pub open spec fn is_vcs_error(vcs: Option<Seq<char>>, e: CmdError) -> bool {
    !is_git_vcs(vcs) && (e matches CmdError::UnsupportedVcs(shown) && shown@ == quoted(vcs->0))
}

/// Accepts the names of git and rejects every other version control system,
/// naming it.
pub fn validate_vcs(vcs: Option<&str>) -> (r: Result<(), CmdError>)
    ensures
        match r {
            Ok(()) => is_git_vcs(crate::text::opt_text(vcs)),
            Err(e) => is_vcs_error(crate::text::opt_text(vcs), e),
        },
{
    if accepts_vcs(vcs) {
        return Ok(());
    }
    match vcs {
        Some(v) => Err(CmdError::UnsupportedVcs(debug_text(v))),
        None => Ok(()),
    }
}

/// What a destination is.
#[derive(Clone, Copy, PartialEq, Eq, Structural, Debug)]
pub enum DirState {
    Missing,
    Empty,
    Occupied,
    NotADirectory,
}

/// Whether the destination is missing or an empty directory; anything there
/// that is not a directory is an error.
pub fn is_not_exist_or_empty(path: &[u8], state: DirState) -> (r: Result<bool, CmdError>)
    ensures
        match r {
            Ok(free) => state != DirState::NotADirectory && free == (state == DirState::Missing
                || state == DirState::Empty),
            Err(CmdError::NotADirectory(p)) => state == DirState::NotADirectory && p@ == path@,
            Err(_) => false,
        },
{
    match state {
        DirState::Missing => Ok(true),
        DirState::Empty => Ok(true),
        DirState::Occupied => Ok(false),
        DirState::NotADirectory => Err(CmdError::NotADirectory(slice_to_vec(path))),
    }
}

/// The repository that a target names, with the settings' owner.
pub fn target_repo(snapshot: &ConfigSnapshot, target: &str, region: Option<&str>) -> (r: Result<
    Repo,
    UrlError,
>)
    ensures
        result_view(r) == repo_of(
            target@,
            snapshot@.user,
            snapshot@.complete_user,
            opt_text(region),
        ),
{
    from_input(target, snapshot.user(), snapshot.complete_user(), region)
}

/// Where a repository lies, given the remote by which its root is found, what
/// git answered for that where it was asked, and where the roots really lie.
pub fn target_dest(
    snapshot: &ConfigSnapshot,
    repo: &Repo,
    remote: &str,
    answer: Option<&[u8]>,
    canonical: &[Option<Vec<u8>>],
    bare: bool,
) -> (r: Result<Vec<u8>, ConfigError>)
    ensures
        match url_root(
            snapshot@,
            remote@,
            match answer {
                Some(a) => Some(a@),
                None => None,
            },
            canonical@,
        ) {
            Some(root) => r is Ok && (r->Ok_0)@ == joined_path(
                root,
                path_of(components(repo@, bare)),
            ),
            None => r is Err && (r->Err_0)@ == ConfigErrorView::NoHomeDir,
        },
{
    match root_for_url(snapshot, remote, answer, canonical) {
        Ok(root) => Ok(dest_path(root.as_slice(), repo, bare)),
        Err(e) => Err(e),
    }
}

/// Git is taken for granted, may be asked for by three names, and nothing else
/// may be asked for.
pub proof fn law_only_git_is_accepted(vcs: Option<&str>, r: Result<(), CmdError>)
    requires
        call_ensures(validate_vcs, (vcs,), r),
    ensures
        vcs is None ==> r is Ok,
        vcs matches Some(v) ==> (r is Ok <==> v@ == "git"@ || v@ == "github"@ || v@
            == "codecommit"@),
{
}

/// A destination is free if and only if nothing is there, or an empty
/// directory is; what is there and is no directory is an error.
pub proof fn law_free_destinations(path: &[u8], state: DirState, r: Result<bool, CmdError>)
    requires
        call_ensures(is_not_exist_or_empty, (path, state), r),
    ensures
        r is Err <==> state is NotADirectory,
        r matches Ok(free) ==> (free <==> state is Missing || state is Empty),
{
}

} // verus!
