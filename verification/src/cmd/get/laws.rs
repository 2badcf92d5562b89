//! What getting repositories promises.

use vstd::prelude::*;
use vstd::utf8::{encode_utf8, is_ascii_chars_encode_utf8, valid_utf8};

use super::{
    effective, first_failure, lemma_course_grows, lock_of, process_target, remote_of, state_after,
    step_after, targets_of, tmp_of, trimmed_lines, was_done, was_tried, workers, CloneState,
    Effective, GetStep, Input, TargetStep,
};
use crate::bytes::{DOT, SLASH};
use crate::cli::GetArgs;
use crate::path::laws::lemma_encoded_without_slash;
use crate::paths::laws::law_joined_path_comes_apart;
use crate::paths::{cut, is_name, joined_path, parent_dir};
use crate::text::laws::law_stripped;
use crate::text::{decimal, is_space, stripped, texts};
use crate::url::{opt_string, url_repo, PartsView};
use crate::vcs::git::{
    clone, has_switch, has_value, law_each_switch_has_its_effect, CloneOptions, GitRun,
};
use crate::walk::is_digit;

verus! {

proof fn lemma_trimmed_lines(lines: Seq<Seq<char>>)
    ensures
        forall|k: int|
            0 <= k < trimmed_lines(lines).len() ==> (#[trigger] trimmed_lines(lines)[k]).len() > 0
                && exists|i: int|
                0 <= i < lines.len() && trimmed_lines(lines)[k] == stripped(#[trigger] lines[i]),
        forall|i: int|
            0 <= i < lines.len() && stripped(#[trigger] lines[i]).len() > 0 ==> trimmed_lines(
                lines,
            ).contains(stripped(lines[i])),
    decreases lines.len(),
{
    if lines.len() > 0 {
        let shorter = lines.drop_last();
        lemma_trimmed_lines(shorter);
        let before = trimmed_lines(shorter);
        let all = trimmed_lines(lines);
        assert forall|k: int| 0 <= k < all.len() implies (#[trigger] all[k]).len() > 0 && exists|
            i: int,
        |
            0 <= i < lines.len() && all[k] == stripped(#[trigger] lines[i]) by {
            if k < before.len() {
                assert(all[k] == before[k]);
                let i = choose|i: int|
                    0 <= i < shorter.len() && before[k] == stripped(#[trigger] shorter[i]);
                assert(all[k] == stripped(lines[i]));
            } else {
                assert(all[k] == stripped(lines[lines.len() - 1]));
            }
        }
        assert forall|i: int|
            0 <= i < lines.len() && stripped(#[trigger] lines[i]).len() > 0 implies all.contains(
            stripped(lines[i]),
        ) by {
            if i < shorter.len() {
                assert(shorter[i] == lines[i]);
                let k = choose|k: int| 0 <= k < before.len() && before[k] == stripped(lines[i]);
                assert(all[k] == stripped(lines[i]));
            } else {
                assert(all[before.len() as int] == stripped(lines[i]));
            }
        }
    }
}

/// Whether a text is more than white space.
pub open spec fn has_text(s: Seq<char>) -> bool {
    exists|i: int| 0 <= i < s.len() && !is_space(#[trigger] s[i])
}

/// Targets that are given are taken as they are, and the input is not looked
/// at. Where none is given, every line that is more than white space is one,
/// without the white space around it, and nothing else is; a terminal gives
/// none.
pub proof fn law_targets(given: Seq<Seq<char>>, input: Input)
    ensures
        given.len() > 0 ==> targets_of(given, input) == given,
        given.len() == 0 && input is Terminal ==> targets_of(given, input).len() == 0,
        given.len() == 0 ==> (input matches Input::Lines(lines) ==> {
            let found = targets_of(given, input);
            &&& forall|i: int|
                0 <= i < lines@.len() && has_text((#[trigger] lines@[i])@) ==> found.contains(
                    stripped(lines@[i]@),
                )
            &&& forall|k: int|
                0 <= k < found.len() ==> (#[trigger] found[k]).len() > 0 && !is_space(found[k][0])
                    && !is_space(found[k].last()) && exists|i: int|
                    0 <= i < lines@.len() && found[k] == stripped((#[trigger] lines@[i])@)
        }),
{
    if given.len() == 0 {
        if let Input::Lines(lines) = input {
            let all = texts(lines@);
            let found = targets_of(given, input);
            lemma_trimmed_lines(all);
            assert forall|i: int|
                0 <= i < lines@.len() && has_text((#[trigger] lines@[i])@) implies found.contains(
                stripped(lines@[i]@),
            ) by {
                law_stripped(lines@[i]@);
                assert(all[i] == lines@[i]@);
            }
            assert forall|k: int| 0 <= k < found.len() implies (#[trigger] found[k]).len() > 0
                && !is_space(found[k][0]) && !is_space(found[k].last()) && exists|i: int|
                0 <= i < lines@.len() && found[k] == stripped((#[trigger] lines@[i])@) by {
                let i = choose|i: int|
                    0 <= i < all.len() && found[k] == stripped(#[trigger] all[i]);
                law_stripped(all[i]);
                assert(found[k] == stripped(lines@[i]@));
            }
        }
    }
}

/// The lines of an input are read in order: those of two inputs one after the
/// other are the targets of the one and then those of the other.
pub proof fn law_lines_are_read_in_order(a: Seq<Seq<char>>, b: Seq<Seq<char>>)
    ensures
        trimmed_lines(a + b) == trimmed_lines(a) + trimmed_lines(b),
    decreases b.len(),
{
    if b.len() == 0 {
        assert(a + b =~= a);
        assert(trimmed_lines(a) + trimmed_lines(b) =~= trimmed_lines(a));
    } else {
        law_lines_are_read_in_order(a, b.drop_last());
        assert((a + b).drop_last() =~= a + b.drop_last());
        assert((a + b).last() == b.last());
        assert(trimmed_lines(a + b) =~= trimmed_lines(a) + trimmed_lines(b));
    }
}

proof fn lemma_first_failure(outcomes: Seq<bool>)
    ensures
        match first_failure(outcomes) {
            Some(i) => 0 <= i < outcomes.len() && !outcomes[i] && forall|j: int|
                0 <= j < i ==> #[trigger] outcomes[j],
            None => forall|j: int| 0 <= j < outcomes.len() ==> #[trigger] outcomes[j],
        },
    decreases outcomes.len(),
{
    if outcomes.len() > 0 {
        let shorter = outcomes.drop_last();
        lemma_first_failure(shorter);
        assert(forall|j: int| 0 <= j < shorter.len() ==> #[trigger] shorter[j] == outcomes[j]);
        assert forall|j: int|
            first_failure(outcomes) is None && 0 <= j < outcomes.len() implies #[trigger] outcomes[j] by {
            if j < shorter.len() {
                assert(shorter[j]);
            }
        }
        if let Some(i) = first_failure(outcomes) {
            assert forall|j: int| 0 <= j < i implies #[trigger] outcomes[j] by {
                assert(shorter[j]);
            }
        }
    }
}

/// One at a time, targets are got in order until one cannot be: that one
/// fails the command, all before it were got, and none behind it is begun.
/// Several at a time, every one is begun, whatever became of the others, and
/// the command never fails by one. The shell is opened only at the end, and
/// only where it is asked for.
pub proof fn law_targets_are_got_in_order(
    parallel: bool,
    look: bool,
    count: usize,
    outcomes: Seq<bool>,
)
    requires
        outcomes.len() <= count,
    ensures
        match step_after(parallel, look, count as int, outcomes) {
            GetStep::Get(k) => k == outcomes.len() && k < count && (parallel || forall|j: int|
                0 <= j < outcomes.len() ==> #[trigger] outcomes[j]),
            GetStep::Failed(k) => !parallel && k < outcomes.len() && !outcomes[k as int] && forall|
                j: int,
            |
                0 <= j < k ==> #[trigger] outcomes[j],
            GetStep::Look => look && outcomes.len() == count && (parallel || forall|j: int|
                0 <= j < outcomes.len() ==> #[trigger] outcomes[j]),
            GetStep::Done => !look && outcomes.len() == count && (parallel || forall|j: int|
                0 <= j < outcomes.len() ==> #[trigger] outcomes[j]),
        },
        !parallel && (exists|j: int| 0 <= j < outcomes.len() && !#[trigger] outcomes[j])
            ==> step_after(parallel, look, count as int, outcomes) is Failed,
        (parallel || forall|j: int| 0 <= j < outcomes.len() ==> #[trigger] outcomes[j])
            && outcomes.len() < count ==> step_after(parallel, look, count as int, outcomes)
            is Get,
{
    lemma_first_failure(outcomes);
}

/// A repository is fetched by the URL of the way that is asked for, and one
/// without a host by the very argument that named it.
pub proof fn law_remote(input: Seq<char>, parts: PartsView, path: Seq<char>, ssh: bool)
    requires
        url_repo(input, parts, path) is Ok,
        parts.host matches Some(h) ==> h.len() > 0,
    ensures
        ({
            let remote = remote_of(url_repo(input, parts, path)->Ok_0, ssh);
            &&& parts.host is None ==> remote == input
            &&& parts.host is Some && ssh ==> remote.len() > 6 && remote.take(6) == "ssh://"@
            &&& parts.host is Some && !ssh ==> remote.len() > 8 && remote.take(8) == "https://"@
        }),
{
    reveal_strlit("ssh://");
    reveal_strlit("https://");
    reveal_strlit("/");
    let repo = url_repo(input, parts, path)->Ok_0;
    let remote = remote_of(repo, ssh);
    if parts.host is Some {
        assert(repo.host.len() > 0);
        if ssh {
            assert(remote.take(6) =~= "ssh://"@);
        } else {
            assert(remote.take(8) =~= "https://"@);
        }
    }
}

proof fn lemma_prefixed_name(name: Seq<u8>, prefix: Seq<u8>, suffix: Seq<u8>)
    requires
        is_name(name),
        !prefix.contains(SLASH),
        !suffix.contains(SLASH),
        prefix.len() + suffix.len() > 2,
    ensures
        is_name(prefix + name + suffix),
{
    let all = prefix + name + suffix;
    if all.contains(SLASH) {
        let k = choose|k: int| 0 <= k < all.len() && all[k] == SLASH;
        if k < prefix.len() {
            assert(prefix.contains(prefix[k]));
        } else if k < prefix.len() + name.len() {
            assert(name.contains(name[k - prefix.len()]));
        } else {
            assert(suffix.contains(suffix[k - prefix.len() - name.len()]));
        }
    }
    assert(all.len() > 2);
    assert(all != seq![DOT]);
    assert(all != seq![DOT, DOT]);
}

/// Where the lock of a destination lies.
proof fn lemma_lock(dir: Seq<u8>, name: Seq<u8>)
    requires
        dir.len() > 0,
        cut(dir) == dir,
        is_name(name) && valid_utf8(name),
    ensures
        lock_of(joined_path(dir, name)) == joined_path(dir, encode_utf8(".scap-lock-"@) + name),
        is_name(encode_utf8(".scap-lock-"@) + name),
        encode_utf8(".scap-lock-"@).len() == 11,
{
    let mark = encode_utf8(".scap-lock-"@);
    reveal_strlit(".scap-lock-");
    assert(!".scap-lock-"@.contains('/'));
    lemma_encoded_without_slash(".scap-lock-"@);
    is_ascii_chars_encode_utf8(".scap-lock-"@);
    let none = Seq::<u8>::empty();
    assert(!none.contains(SLASH));
    lemma_prefixed_name(name, mark, none);
    assert(mark + name + none =~= mark + name);
    law_joined_path_comes_apart(dir, name);
}

/// Where the clone of a destination lies.
proof fn lemma_tmp(dir: Seq<u8>, name: Seq<u8>, pid: u32)
    requires
        dir.len() > 0,
        cut(dir) == dir,
        is_name(name) && valid_utf8(name),
    ensures
        ({
            let tail = encode_utf8(".tmp-"@) + encode_utf8(decimal(pid as nat));
            &&& tmp_of(joined_path(dir, name), pid) == joined_path(dir, name + tail)
            &&& is_name(name + tail)
            &&& tail.len() > 5
            &&& tail.skip(5) == encode_utf8(decimal(pid as nat))
        }),
{
    let dash = encode_utf8(".tmp-"@);
    let digits = encode_utf8(decimal(pid as nat));
    let tail = dash + digits;
    reveal_strlit(".tmp-");
    assert(!".tmp-"@.contains('/'));
    lemma_encoded_without_slash(".tmp-"@);
    is_ascii_chars_encode_utf8(".tmp-"@);
    super::lemma_decimal_digits(pid as nat);
    assert(!tail.contains(SLASH)) by {
        if tail.contains(SLASH) {
            let k = choose|k: int| 0 <= k < tail.len() && tail[k] == SLASH;
            if k < dash.len() {
                assert(dash.contains(dash[k]));
            } else {
                assert(is_digit(digits[k - dash.len()]));
            }
        }
    }
    let none = Seq::<u8>::empty();
    assert(!none.contains(SLASH));
    lemma_prefixed_name(name, none, tail);
    assert(none + name + tail =~= name + tail);
    assert(name + dash + digits =~= name + tail);
    assert(tail.skip(5) =~= digits);
    law_joined_path_comes_apart(dir, name);
}

/// What is made beside a destination while it is cloned lies in the same
/// directory, so that the clone can be moved there by its name alone. The
/// names tell destinations apart: no two of one directory share a lock, no
/// two processes share a clone, and neither is a destination itself.
#[verifier::rlimit(60)]
#[verifier::spinoff_prover]
pub proof fn law_lock_and_clone_lie_beside(
    dir: Seq<u8>,
    name: Seq<u8>,
    other: Seq<u8>,
    pid: u32,
    another: u32,
)
    requires
        dir.len() > 0,
        cut(dir) == dir,
        is_name(name) && valid_utf8(name),
        is_name(other) && valid_utf8(other),
    ensures
        ({
            let dest = joined_path(dir, name);
            &&& parent_dir(lock_of(dest)) == parent_dir(dest)
            &&& parent_dir(tmp_of(dest, pid)) == parent_dir(dest)
            &&& lock_of(dest) != dest
            &&& tmp_of(dest, pid) != dest
            &&& lock_of(dest) == lock_of(joined_path(dir, other)) ==> name == other
            &&& tmp_of(dest, pid) == tmp_of(joined_path(dir, other), pid) ==> name == other
            &&& tmp_of(dest, pid) == tmp_of(dest, another) ==> pid == another
        }),
{
    let mark = encode_utf8(".scap-lock-"@);
    let tail = encode_utf8(".tmp-"@) + encode_utf8(decimal(pid as nat));
    let tail2 = encode_utf8(".tmp-"@) + encode_utf8(decimal(another as nat));
    lemma_lock(dir, name);
    lemma_lock(dir, other);
    lemma_tmp(dir, name, pid);
    lemma_tmp(dir, other, pid);
    lemma_tmp(dir, name, another);
    law_joined_path_comes_apart(dir, name);
    law_joined_path_comes_apart(dir, mark + name);
    law_joined_path_comes_apart(dir, mark + other);
    law_joined_path_comes_apart(dir, name + tail);
    law_joined_path_comes_apart(dir, other + tail);
    law_joined_path_comes_apart(dir, name + tail2);
    assert((mark + name).len() > name.len());
    assert((name + tail).len() > name.len());
    if mark + name == mark + other {
        assert((mark + name).skip(11) =~= name);
        assert((mark + other).skip(11) =~= other);
    }
    if name + tail == other + tail {
        let n = (name + tail).len() - tail.len();
        assert((name + tail).take(n) =~= name);
        assert((other + tail).take(n) =~= other);
    }
    if name + tail == name + tail2 {
        assert((name + tail).skip(name.len() as int) =~= tail);
        assert((name + tail2).skip(name.len() as int) =~= tail2);
        super::lemma_decimal_digits(pid as nat);
        super::lemma_decimal_digits(another as nat);
    }
}

/// Whether a state stands for work that has to succeed, and not for clearing
/// up.
pub open spec fn is_work(state: CloneState) -> bool {
    state is LockDir || state is OpenLock || state is TryLock || state is TmpDir || state is Clone
        || state is DestDir || state is Rename
}

/// Whether some work of a course was not done.
pub open spec fn has_fault(outcomes: Seq<bool>) -> bool {
    exists|n: int|
        0 <= n < outcomes.len() && is_work(#[trigger] state_after(outcomes.take(n))) && !outcomes[n]
}

/// Whether a state is reached only after something failed.
pub open spec fn is_failing(state: CloneState) -> bool {
    match state {
        CloneState::RemoveTmp | CloneState::Busy | CloneState::NoLock => true,
        CloneState::Unlock { failed } => failed,
        CloneState::RemoveLock { failed } => failed,
        CloneState::Finished { failed } => failed,
        _ => false,
    }
}

/// How many of the states before it were done when a state is reached without
/// a fault: all of them.
pub open spec fn all_done_before(state: CloneState, outcomes: Seq<bool>) -> bool {
    let behind = match state {
        CloneState::LockDir => 0int,
        CloneState::OpenLock => 1,
        CloneState::TryLock => 2,
        CloneState::TmpDir => 3,
        CloneState::Clone => 4,
        CloneState::DestDir => 5,
        CloneState::Rename => 6,
        _ => 7,
    };
    &&& behind > 0 ==> was_done(outcomes, CloneState::LockDir)
    &&& behind > 1 ==> was_done(outcomes, CloneState::OpenLock)
    &&& behind > 2 ==> was_done(outcomes, CloneState::TryLock)
    &&& behind > 3 ==> was_done(outcomes, CloneState::TmpDir)
    &&& behind > 4 ==> was_done(outcomes, CloneState::Clone)
    &&& behind > 5 ==> was_done(outcomes, CloneState::DestDir)
    &&& behind > 6 ==> was_done(outcomes, CloneState::Rename)
}

proof fn lemma_faults(outcomes: Seq<bool>)
    ensures
        has_fault(outcomes) == is_failing(state_after(outcomes)),
        !has_fault(outcomes) ==> all_done_before(state_after(outcomes), outcomes),
    decreases outcomes.len(),
{
    if outcomes.len() > 0 {
        let shorter = outcomes.drop_last();
        let last = outcomes.last();
        let n = shorter.len() as int;
        lemma_faults(shorter);
        lemma_course_grows(shorter, last);
        assert(shorter.push(last) =~= outcomes);
        assert(outcomes.take(n) =~= shorter);
        assert(has_fault(outcomes) == (has_fault(shorter) || (is_work(state_after(shorter))
            && !last))) by {
            if has_fault(shorter) {
                let k = choose|k: int|
                    0 <= k < shorter.len() && is_work(#[trigger] state_after(shorter.take(k)))
                        && !shorter[k];
                assert(shorter.take(k) =~= outcomes.take(k));
                assert(is_work(state_after(outcomes.take(k))) && !outcomes[k]);
            }
            if has_fault(outcomes) {
                let k = choose|k: int|
                    0 <= k < outcomes.len() && is_work(#[trigger] state_after(outcomes.take(k)))
                        && !outcomes[k];
                if k < n {
                    assert(shorter.take(k) =~= outcomes.take(k));
                    assert(is_work(state_after(shorter.take(k))) && !shorter[k]);
                }
            }
            if is_work(state_after(shorter)) && !last {
                assert(is_work(state_after(outcomes.take(n))) && !outcomes[n]);
            }
        }
    }
}

/// A clone ends badly if and only if some of its work was not done; where it
/// ends well, every piece of the work was: the directories made, the lock
/// file opened and locked, the repository cloned and moved. What comes of
/// clearing up changes nothing of that.
pub proof fn law_clone_fails_by_its_work_alone(outcomes: Seq<bool>)
    ensures
        state_after(outcomes) matches CloneState::Finished { failed } ==> failed == has_fault(
            outcomes,
        ),
        state_after(outcomes) == (CloneState::Finished { failed: false }) ==> was_done(
            outcomes,
            CloneState::LockDir,
        ) && was_done(outcomes, CloneState::OpenLock) && was_done(outcomes, CloneState::TryLock)
            && was_done(outcomes, CloneState::TmpDir) && was_done(outcomes, CloneState::Clone)
            && was_done(outcomes, CloneState::DestDir) && was_done(outcomes, CloneState::Rename),
        state_after(outcomes) is Busy || state_after(outcomes) is NoLock ==> has_fault(outcomes),
        !has_fault(outcomes) && outcomes.len() >= 10 ==> state_after(outcomes) == (
        CloneState::Finished { failed: false }),
{
    lemma_faults(outcomes);
    super::law_clone_ends(outcomes);
}

/// The program gives way to another process only where the lock itself was
/// not to be had, and not where its file was not.
pub proof fn law_busy_means_locked(outcomes: Seq<bool>)
    ensures
        state_after(outcomes) is Busy ==> was_tried(outcomes, CloneState::TryLock) && !was_done(
            outcomes,
            CloneState::TryLock,
        ),
        state_after(outcomes) is NoLock ==> !was_tried(outcomes, CloneState::TryLock),
    decreases outcomes.len(),
{
    super::lemma_course(outcomes);
    lemma_before_the_lock(outcomes);
}

proof fn lemma_before_the_lock(outcomes: Seq<bool>)
    ensures
        state_after(outcomes) is Busy ==> was_tried(outcomes, CloneState::TryLock),
        state_after(outcomes) is NoLock || state_after(outcomes) is LockDir || state_after(outcomes)
            is OpenLock || state_after(outcomes) is TryLock ==> !was_tried(
            outcomes,
            CloneState::TryLock,
        ),
    decreases outcomes.len(),
{
    if outcomes.len() > 0 {
        let shorter = outcomes.drop_last();
        lemma_before_the_lock(shorter);
        lemma_course_grows(shorter, outcomes.last());
        assert(shorter.push(outcomes.last()) =~= outcomes);
    }
}

/// What is asked for on the command line reaches git: a repository that is
/// not there is cloned with exactly the switches that were given, submodules
/// included unless they are refused, and silently where that is asked for or
/// several are got at a time.
pub proof fn law_switches_reach_git(
    args: &GetArgs,
    asked: &Effective,
    step: TargetStep,
    url: &str,
    dest: &[u8],
    opts: &CloneOptions,
    run: GitRun,
)
    requires
        call_ensures(effective, (args,), *asked),
        call_ensures(process_target, (asked, false), step),
        step == TargetStep::Clone(*opts),
        call_ensures(clone, (url, dest, opts), run),
    ensures
        ({
            let given = run@.args;
            &&& has_value(given, "--depth"@, "1"@) == args.shallow
            &&& has_switch(given, "--depth"@) == args.shallow
            &&& has_switch(given, "--branch"@) == args.branch is Some
            &&& args.branch matches Some(b) ==> has_value(given, "--branch"@, b@)
            &&& has_switch(given, "--single-branch"@) == args.branch is Some
            &&& has_switch(given, "--recursive"@) == !args.no_recursive
            &&& has_switch(given, "--bare"@) == args.bare
            &&& has_switch(given, "--filter=blob:none"@) == (args.partial matches Some(p) && p@
                == "blobless"@)
            &&& has_switch(given, "--filter=tree:0"@) == (args.partial matches Some(p) && p@
                == "treeless"@)
            &&& given[given.len() - 2] == url@
            &&& run.silent == (args.silent || args.parallel)
            &&& run.dir is None
        }),
{
    law_each_switch_has_its_effect(url@, dest@, *opts);
    assert(run@.silent == run.silent);
    assert(opt_string(opts.branch) == opt_string(args.branch));
    assert(opt_string(opts.partial) == opt_string(args.partial));
}

/// What becomes of a target: one that is not there is cloned, and one that is
/// there is left as it is unless an update is asked for, which then is bare,
/// goes into submodules and is silent as the command line says.
pub proof fn law_what_becomes_of_a_target(
    args: &GetArgs,
    asked: &Effective,
    is_repo: bool,
    step: TargetStep,
)
    requires
        call_ensures(effective, (args,), *asked),
        call_ensures(process_target, (asked, is_repo), step),
    ensures
        step is Clone <==> !is_repo,
        step is Skip <==> is_repo && !args.update,
        step is Update <==> is_repo && args.update,
        step matches TargetStep::Update(opts) ==> opts.bare == args.bare && opts.recursive
            == !args.no_recursive && opts.silent == (args.silent || args.parallel),
{
}

/// Never more repositories are cloned at a time than there are, nor more than
/// six, and never none.
pub proof fn law_workers(targets: usize, n: usize)
    requires
        call_ensures(workers, (targets,), n),
    ensures
        1 <= n <= 6,
        targets > 0 ==> n <= targets,
        n < targets ==> n == 6,
{
}

} // verus!
