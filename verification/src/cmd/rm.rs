//! Removing a repository.

use vstd::prelude::*;
use vstd::slice::slice_to_vec;

use crate::cli::RmArgs;
use crate::cmd::{is_not_exist_or_empty, CmdError, DirState};
use crate::text::{chars, is_empty, lossy_text, shown_path};

verus! {

/// Accepts a target that is not empty.
pub fn check(args: &RmArgs) -> (r: Result<(), CmdError>)
    ensures
        match r {
            Ok(()) => args.target@.len() > 0,
            Err(e) => args.target@.len() == 0 && e is TargetRequired,
        },
{
    if is_empty(args.target.as_str()) {
        Err(CmdError::TargetRequired)
    } else {
        Ok(())
    }
}

/// What is done next to remove a repository.
#[derive(Debug)]
pub enum RmStep {
    /// Only say what would be removed.
    Say(String),
    /// Ask before removing.
    Ask(String),
}

/// What is done next to remove a repository at a destination, given what is
/// there: something has to be.
pub fn run(args: &RmArgs, dest: &[u8], state: DirState) -> (r: Result<RmStep, CmdError>)
    ensures
        match r {
            Ok(step) => args.target@.len() > 0 && state is Occupied && (match step {
                RmStep::Say(line) => args.dry_run && line@ == "Would remove "@ + shown_path(dest@)
                    + "\n"@,
                RmStep::Ask(question) => !args.dry_run && question@ == "Remove "@ + shown_path(
                    dest@,
                ) + "? [y/N]: "@,
            }),
            Err(CmdError::NotADirectory(p)) => args.target@.len() > 0 && state is NotADirectory
                && p@ == dest@,
            Err(CmdError::Missing(p)) => args.target@.len() > 0 && (state is Missing
                || state is Empty) && p@ == dest@,
            Err(e) => args.target@.len() == 0 && e is TargetRequired,
        },
{
    match check(args) {
        Ok(()) => {},
        Err(e) => return Err(e),
    }
    match is_not_exist_or_empty(dest, state) {
        Ok(free) => {
            if free {
                return Err(CmdError::Missing(slice_to_vec(dest)));
            }
        },
        Err(e) => return Err(e),
    }
    let shown = lossy_text(dest);
    if args.dry_run {
        Ok(RmStep::Say(String::from_str("Would remove ").concat(shown.as_str()).concat("\n")))
    } else {
        Ok(RmStep::Ask(String::from_str("Remove ").concat(shown.as_str()).concat("? [y/N]: ")))
    }
}

/// A line without the line feeds and carriage returns it ends in.
pub open spec fn unended(line: Seq<char>) -> Seq<char>
    decreases line.len(),
{
    if line.len() > 0 && (line.last() == '\n' || line.last() == '\r') {
        unended(line.drop_last())
    } else {
        line
    }
}

/// Whether an answer is `y`, and nothing but that.
pub fn confirm(line: &str) -> (r: bool)
    ensures
        r == (unended(line@) == "y"@),
{
    let cs = chars(line);
    let mut n: usize = cs.len();
    assert(line@.take(n as int) =~= line@);
    while n > 0 && (cs[n - 1] == '\n' || cs[n - 1] == '\r')
        invariant
            n <= cs@.len(),
            cs@ == line@,
            unended(line@) == unended(line@.take(n as int)),
        decreases n,
    {
        assert(line@.take(n as int).drop_last() =~= line@.take(n - 1));
        n = n - 1;
    }
    proof {
        reveal_strlit("y");
        assert((n == 1 && line@[0] == 'y') == (line@.take(n as int) =~= "y"@));
    }
    n == 1 && cs[0] == 'y'
}

/// What is printed once a repository has been removed; nothing is removed
/// unless the answer is `y`.
pub fn answered(dest: &[u8], line: &str) -> (r: Result<String, CmdError>)
    ensures
        match r {
            Ok(says) => unended(line@) == "y"@ && says@ == "Removed "@ + shown_path(dest@)
                + "\n"@,
            Err(e) => unended(line@) != "y"@ && e is Aborted,
        },
{
    if confirm(line) {
        Ok(String::from_str("Removed ").concat(lossy_text(dest).as_str()).concat("\n"))
    } else {
        Err(CmdError::Aborted)
    }
}

/// Only `y` removes anything: an answer that is the letter, with nothing
/// behind it but how its line ends. Nothing at all, a capital letter, a blank
/// or a whole word do not.
pub proof fn law_only_y_confirms(line: Seq<char>)
    ensures
        unended(line) == "y"@ <==> line.len() > 0 && line[0] == 'y' && forall|i: int|
            1 <= i < line.len() ==> #[trigger] line[i] == '\n' || line[i] == '\r',
    decreases line.len(),
{
    reveal_strlit("y");
    if line.len() > 0 && (line.last() == '\n' || line.last() == '\r') {
        let shorter = line.drop_last();
        law_only_y_confirms(shorter);
        if line.len() == 1 {
            assert(unended(shorter).len() == 0);
        } else {
            assert(shorter[0] == line[0]);
            assert(forall|i: int| 0 <= i < shorter.len() ==> #[trigger] shorter[i] == line[i]);
            if forall|i: int|
                1 <= i < shorter.len() ==> #[trigger] shorter[i] == '\n' || shorter[i] == '\r' {
                assert forall|i: int| 1 <= i < line.len() implies #[trigger] line[i] == '\n'
                    || line[i] == '\r' by {
                    if i < shorter.len() {
                        assert(shorter[i] == line[i]);
                    }
                }
            }
        }
    } else if line.len() == 1 {
        assert(line =~= "y"@ <==> line[0] == 'y');
    } else if line.len() > 1 {
        assert(line[line.len() - 1] == line.last());
    }
}

/// Something is removed only where there is something, and only after it was
/// asked: a dry run says what would be removed and asks nothing.
pub proof fn law_nothing_is_removed_unasked(
    args: &RmArgs,
    dest: &[u8],
    state: DirState,
    r: Result<RmStep, CmdError>,
)
    requires
        call_ensures(run, (args, dest, state), r),
    ensures
        r is Ok <==> args.target@.len() > 0 && state is Occupied,
        r matches Ok(step) ==> (step is Say <==> args.dry_run),
        r matches Ok(step) ==> (step is Ask <==> !args.dry_run),
{
}

/// The answer decides: what was asked about is removed if and only if it is
/// `y`, alone on its line.
pub proof fn law_answer_decides(dest: &[u8], line: &str, r: Result<String, CmdError>)
    requires
        call_ensures(answered, (dest, line), r),
    ensures
        r is Ok <==> line@.len() > 0 && line@[0] == 'y' && forall|i: int|
            1 <= i < line@.len() ==> #[trigger] line@[i] == '\n' || line@[i] == '\r',
        r matches Err(e) ==> e is Aborted,
{
    law_only_y_confirms(line@);
}

} // verus!
