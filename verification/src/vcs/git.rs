//! What git is asked to do.

use vstd::prelude::*;
use vstd::slice::{slice_subrange, slice_to_vec};
use vstd::utf8::{encode_utf8, valid_utf8};

use crate::bytes::{
    ends_with, has_prefix, has_suffix, joined, opt_view, push_all, starts_with, views,
};
use crate::config::{signed_decimal, signed_text};
use crate::paths::laws::law_joined_path_comes_apart;
use crate::paths::{cut, file_name, is_name, join, joined_path, last_name, parent, parent_dir};
use crate::text::{lossy_text, shown_path, text_eq, texts, utf8_text};
use crate::walk::{decimal_value, is_decimal, is_digit, parse_decimal};

verus! {

/// Why git did not do what it was asked to.
#[derive(Debug)]
pub enum GitError {
    /// It could not be started, and what the system says of that.
    Spawn(String),
    NonZeroExit { args: String, dir: String, status: i32 },
}

impl GitError {
    /// What the error says.
    pub open spec fn says(&self) -> Seq<char> {
        match self {
            GitError::Spawn(e) => "failed to invoke `git`: "@ + e@,
            GitError::NonZeroExit { args, dir, status } => "`git "@ + args@ + "` in "@ + dir@
                + " failed (status "@ + signed_decimal(*status as int) + ")"@,
        }
    }

    /// What the error says.
    pub fn message(&self) -> (r: String)
        ensures
            r@ == self.says(),
    {
        match self {
            GitError::Spawn(e) => String::from_str("failed to invoke `git`: ").concat(e.as_str()),
            GitError::NonZeroExit { args, dir, status } => String::from_str("`git ").concat(
                args.as_str(),
            ).concat("` in ").concat(dir.as_str()).concat(" failed (status ").concat(
                signed_text(*status).as_str(),
            ).concat(")"),
        }
    }
}

/// How a repository is cloned.
#[derive(Debug)]
pub struct CloneOptions {
    pub shallow: bool,
    pub branch: Option<String>,
    pub recursive: bool,
    pub bare: bool,
    pub partial: Option<String>,
    pub silent: bool,
}

/// How a working copy is brought up to date.
#[derive(Debug, Clone, Copy, PartialEq, Eq, Structural)]
pub struct UpdateOptions {
    pub bare: bool,
    pub recursive: bool,
    pub silent: bool,
}

/// One run of git.
#[derive(Debug)]
pub struct GitRun {
    /// The directory it runs in, where that is not the process's own.
    pub dir: Option<Vec<u8>>,
    /// Whether what it prints is thrown away.
    pub silent: bool,
    pub args: Vec<String>,
}

/// What a [`GitRun`] says.
#[verifier::ext_equal]
pub struct RunView {
    pub dir: Option<Seq<u8>>,
    pub silent: bool,
    pub args: Seq<Seq<char>>,
}

impl View for GitRun {
    type V = RunView;

    open spec fn view(&self) -> RunView {
        RunView { dir: opt_view(self.dir), silent: self.silent, args: texts(self.args@) }
    }
}

/// The arguments of a clone.
pub open spec fn clone_args(url: Seq<char>, dest: Seq<u8>, opts: CloneOptions) -> Seq<Seq<char>> {
    let shallow = if opts.shallow {
        seq!["--depth"@, "1"@]
    } else {
        Seq::empty()
    };
    let branch = match opts.branch {
        Some(b) => seq!["--branch"@, b@, "--single-branch"@],
        None => Seq::empty(),
    };
    let recursive = if opts.recursive {
        seq!["--recursive"@]
    } else {
        Seq::empty()
    };
    let bare = if opts.bare {
        seq!["--bare"@]
    } else {
        Seq::empty()
    };
    let partial = match opts.partial {
        Some(p) => if p@ == "blobless"@ {
            seq!["--filter=blob:none"@]
        } else if p@ == "treeless"@ {
            seq!["--filter=tree:0"@]
        } else {
            Seq::empty()
        },
        None => Seq::empty(),
    };
    seq!["clone"@] + shallow + branch + recursive + bare + partial + seq![url, shown_path(dest)]
}

fn push_arg(args: &mut Vec<String>, arg: &str)
    ensures
        texts(final(args)@) == texts(old(args)@).push(arg@),
{
    let ghost before = texts(args@);
    args.push(String::from_str(arg));
    assert(texts(args@) =~= before.push(arg@));
}

/// The directory that has to be there before something is made at a path:
/// none where the path has no parent or lies in the working directory.
pub open spec fn needed_dir(p: Seq<u8>) -> Option<Seq<u8>> {
    match parent_dir(p) {
        Some(d) if d.len() > 0 => Some(d),
        _ => None,
    }
}

/// The directory that has to be there before something is made at a path.
pub fn dir_for(p: &[u8]) -> (r: Option<Vec<u8>>)
    ensures
        opt_view(r) == needed_dir(p@),
{
    match parent(p) {
        Some(d) => if d.len() > 0 {
            Some(d)
        } else {
            None
        },
        None => None,
    }
}

/// The run that clones a repository.
#[verifier::rlimit(30)]
pub fn clone(url: &str, dest: &[u8], opts: &CloneOptions) -> (r: GitRun)
    ensures
        r@ == (RunView {
            dir: None,
            silent: opts.silent,
            args: clone_args(url@, dest@, *opts),
        }),
{
    let mut args: Vec<String> = Vec::new();
    push_arg(&mut args, "clone");
    if opts.shallow {
        push_arg(&mut args, "--depth");
        push_arg(&mut args, "1");
    }
    if let Some(b) = &opts.branch {
        push_arg(&mut args, "--branch");
        push_arg(&mut args, b.as_str());
        push_arg(&mut args, "--single-branch");
    }
    if opts.recursive {
        push_arg(&mut args, "--recursive");
    }
    if opts.bare {
        push_arg(&mut args, "--bare");
    }
    if let Some(p) = &opts.partial {
        if text_eq(p.as_str(), "blobless") {
            push_arg(&mut args, "--filter=blob:none");
        } else if text_eq(p.as_str(), "treeless") {
            push_arg(&mut args, "--filter=tree:0");
        }
    }
    push_arg(&mut args, url);
    push_arg(&mut args, lossy_text(dest).as_str());
    assert(texts(args@) =~= clone_args(url@, dest@, *opts));
    GitRun { dir: None, silent: opts.silent, args }
}

/// Whether git takes the argument at a place of a clone for a switch: the
/// places between the command and the two last arguments, but for those that
/// hold the value of the switch before them.
pub open spec fn is_switch(args: Seq<Seq<char>>, i: int) -> bool
    decreases i,
{
    1 <= i < args.len() - 2 && !(is_switch(args, i - 1) && (args[i - 1] == "--depth"@ || args[i - 1]
        == "--branch"@))
}

/// Whether git is given a switch.
pub open spec fn has_switch(args: Seq<Seq<char>>, name: Seq<char>) -> bool {
    exists|i: int| #[trigger] is_switch(args, i) && args[i] == name
}

/// Whether git is given a switch with a value.
pub open spec fn has_value(args: Seq<Seq<char>>, name: Seq<char>, value: Seq<char>) -> bool {
    exists|i: int| #[trigger]
        is_switch(args, i) && args[i] == name && i + 1 < args.len() - 2 && args[i + 1] == value
}

/// The switches of a clone, each one other than the others.
proof fn lemma_switches_differ()
    ensures
        "--depth"@.len() == 7,
        "--branch"@.len() == 8,
        "--single-branch"@.len() == 15,
        "--recursive"@.len() == 11,
        "--bare"@.len() == 6,
        "--filter=blob:none"@.len() == 18,
        "--filter=tree:0"@.len() == 15,
        "--filter=tree:0"@ != "--single-branch"@,
        "blobless"@ != "treeless"@,
{
    reveal_strlit("--depth");
    reveal_strlit("--branch");
    reveal_strlit("--single-branch");
    reveal_strlit("--recursive");
    reveal_strlit("--bare");
    reveal_strlit("--filter=blob:none");
    reveal_strlit("--filter=tree:0");
    reveal_strlit("blobless");
    reveal_strlit("treeless");
    assert("--filter=tree:0"@[2] != "--single-branch"@[2]);
    assert("blobless"@[0] != "treeless"@[0]);
}

/// Each switch of a clone has its effect whatever the others are: git is told
/// to go one commit deep if and only if that is asked for, to take one branch
/// if and only if there is one, and that very one, and so with submodules,
/// bare copies and the two filters. It is given no other switch, none twice,
/// and last the URL and the destination.
#[verifier::rlimit(100)]
#[verifier::spinoff_prover]
pub proof fn law_each_switch_has_its_effect(url: Seq<char>, dest: Seq<u8>, opts: CloneOptions)
    ensures
        ({
            let args = clone_args(url, dest, opts);
            &&& args.len() >= 3
            &&& args[0] == "clone"@
            &&& args[args.len() - 2] == url
            &&& args[args.len() - 1] == shown_path(dest)
            &&& has_switch(args, "--depth"@) == opts.shallow
            &&& has_value(args, "--depth"@, "1"@) == opts.shallow
            &&& has_switch(args, "--branch"@) == opts.branch is Some
            &&& has_switch(args, "--single-branch"@) == opts.branch is Some
            &&& opts.branch matches Some(b) ==> has_value(args, "--branch"@, b@)
            &&& has_switch(args, "--recursive"@) == opts.recursive
            &&& has_switch(args, "--bare"@) == opts.bare
            &&& has_switch(args, "--filter=blob:none"@) == (opts.partial matches Some(p) && p@
                == "blobless"@)
            &&& has_switch(args, "--filter=tree:0"@) == (opts.partial matches Some(p) && p@
                == "treeless"@)
            &&& forall|i: int| #[trigger]
                is_switch(args, i) ==> args[i] == "--depth"@ || args[i] == "--branch"@ || args[i]
                    == "--single-branch"@ || args[i] == "--recursive"@ || args[i] == "--bare"@
                    || args[i] == "--filter=blob:none"@ || args[i] == "--filter=tree:0"@
            &&& forall|i: int, j: int| #[trigger]
                is_switch(args, i) && #[trigger] is_switch(args, j) && args[i] == args[j] ==> i == j
        }),
{
    lemma_switches_differ();
    reveal_with_fuel(is_switch, 10);
    let args = clone_args(url, dest, opts);
    assert(args.len() <= 11);
    assert(forall|i: int| #[trigger] is_switch(args, i) ==> 1 <= i <= 8);
    let a = if opts.shallow { 2int } else { 0 };
    let b = if opts.branch is Some { 3int } else { 0 };
    let c = if opts.recursive { 1int } else { 0 };
    let d = if opts.bare { 1int } else { 0 };
    if opts.shallow {
        assert(is_switch(args, 1) && args[1] == "--depth"@ && args[2] == "1"@);
        assert(!is_switch(args, 2));
    }
    if opts.branch is Some {
        assert(is_switch(args, 1 + a) && args[1 + a] == "--branch"@);
        assert(!is_switch(args, 2 + a));
        assert(is_switch(args, 3 + a) && args[3 + a] == "--single-branch"@);
    }
    if opts.recursive {
        assert(is_switch(args, 1 + a + b) && args[1 + a + b] == "--recursive"@);
    }
    if opts.bare {
        assert(is_switch(args, 1 + a + b + c) && args[1 + a + b + c] == "--bare"@);
    }
    if let Some(p) = opts.partial {
        if p@ == "blobless"@ {
            assert(is_switch(args, 1 + a + b + c + d) && args[1 + a + b + c + d]
                == "--filter=blob:none"@);
        } else if p@ == "treeless"@ {
            assert(is_switch(args, 1 + a + b + c + d) && args[1 + a + b + c + d]
                == "--filter=tree:0"@);
        }
    }
}

/// What is to be done next to bring a working copy up to date.
#[derive(Debug)]
pub enum UpdateStep {
    Run(GitRun),
    Finished,
    /// The last run failed, and the update with it.
    Failed,
}

/// What an [`UpdateStep`] says.
#[verifier::ext_equal]
pub enum UpdateView {
    Run(RunView),
    Finished,
    Failed,
}

impl View for UpdateStep {
    type V = UpdateView;

    open spec fn view(&self) -> UpdateView {
        match self {
            UpdateStep::Run(run) => UpdateView::Run(run@),
            UpdateStep::Finished => UpdateView::Finished,
            UpdateStep::Failed => UpdateView::Failed,
        }
    }
}

/// How an update ends whose last run did or did not succeed.
pub open spec fn update_end(ok: bool) -> UpdateView {
    if ok {
        UpdateView::Finished
    } else {
        UpdateView::Failed
    }
}

/// What is to be done next to bring a working copy up to date, given whether
/// each run so far succeeded.
///
/// A bare copy fetches everything. Any other is asked whether it follows a
/// remote branch: if it does not, it fetches; if it does, it pulls without
/// merging, and then updates its submodules where that is asked for.
pub open spec fn update_next(
    url: Seq<char>,
    dest: Seq<u8>,
    opts: UpdateOptions,
    outcomes: Seq<bool>,
) -> UpdateView {
    let run = |silent: bool, args: Seq<Seq<char>>|
        UpdateView::Run(RunView { dir: Some(dest), silent, args });
    if opts.bare {
        if outcomes.len() == 0 {
            run(true, seq!["fetch"@, url, "*:*"@])
        } else {
            update_end(outcomes[0])
        }
    } else if outcomes.len() == 0 {
        run(true, seq!["rev-parse"@, "@{upstream}"@])
    } else if !outcomes[0] {
        if outcomes.len() == 1 {
            run(opts.silent, seq!["fetch"@])
        } else {
            update_end(outcomes[1])
        }
    } else if outcomes.len() == 1 {
        run(opts.silent, seq!["pull"@, "--ff-only"@])
    } else if !outcomes[1] || !opts.recursive {
        update_end(outcomes[1])
    } else if outcomes.len() == 2 {
        run(opts.silent, seq!["submodule"@, "update"@, "--init"@, "--recursive"@])
    } else {
        update_end(outcomes[2])
    }
}

fn ended(ok: bool) -> (r: UpdateStep)
    ensures
        r@ == update_end(ok),
{
    if ok {
        UpdateStep::Finished
    } else {
        UpdateStep::Failed
    }
}

/// What is to be done next to bring a working copy up to date, given whether
/// each run so far succeeded.
pub fn update(url: &str, dest: &[u8], opts: &UpdateOptions, outcomes: &[bool]) -> (r: UpdateStep)
    ensures
        r@ == update_next(url@, dest@, *opts, outcomes@),
{
    let mut args: Vec<String> = Vec::new();
    let mut silent = opts.silent;
    assert(texts(args@) =~= Seq::empty());
    let ghost want = update_next(url@, dest@, *opts, outcomes@);
    if opts.bare {
        if outcomes.len() > 0 {
            return ended(outcomes[0]);
        }
        silent = true;
        push_arg(&mut args, "fetch");
        push_arg(&mut args, url);
        push_arg(&mut args, "*:*");
        assert(texts(args@) =~= seq!["fetch"@, url@, "*:*"@]);
    } else if outcomes.len() == 0 {
        silent = true;
        push_arg(&mut args, "rev-parse");
        push_arg(&mut args, "@{upstream}");
        assert(texts(args@) =~= seq!["rev-parse"@, "@{upstream}"@]);
    } else if !outcomes[0] {
        if outcomes.len() > 1 {
            return ended(outcomes[1]);
        }
        push_arg(&mut args, "fetch");
        assert(texts(args@) =~= seq!["fetch"@]);
    } else if outcomes.len() == 1 {
        push_arg(&mut args, "pull");
        push_arg(&mut args, "--ff-only");
        assert(texts(args@) =~= seq!["pull"@, "--ff-only"@]);
    } else if !outcomes[1] || !opts.recursive {
        return ended(outcomes[1]);
    } else if outcomes.len() == 2 {
        push_arg(&mut args, "submodule");
        push_arg(&mut args, "update");
        push_arg(&mut args, "--init");
        push_arg(&mut args, "--recursive");
        assert(texts(args@) =~= seq!["submodule"@, "update"@, "--init"@, "--recursive"@]);
    } else {
        return ended(outcomes[2]);
    }
    UpdateStep::Run(GitRun { dir: Some(slice_to_vec(dest)), silent, args })
}

/// An update takes at most three runs, and a copy that follows no remote
/// branch does not fail for that.
pub proof fn law_update_ends(
    url: Seq<char>,
    dest: Seq<u8>,
    opts: UpdateOptions,
    outcomes: Seq<bool>,
)
    ensures
        outcomes.len() >= 3 ==> !(update_next(url, dest, opts, outcomes) is Run),
        update_next(url, dest, opts, outcomes) is Failed ==> exists|i: int|
            0 <= i < outcomes.len() && !#[trigger] outcomes[i] && (i > 0 || opts.bare),
{
    if update_next(url, dest, opts, outcomes) is Failed {
        if opts.bare {
            assert(!outcomes[0]);
        } else if !outcomes[0] || !outcomes[1] {
            assert(!outcomes[1]);
        } else {
            assert(!outcomes[2]);
        }
    }
}

/// The steps of an update, given whether each run so far succeeded: what was
/// to be done after the first few of them.
pub open spec fn update_at(
    url: Seq<char>,
    dest: Seq<u8>,
    opts: UpdateOptions,
    outcomes: Seq<bool>,
    k: int,
) -> UpdateView {
    update_next(url, dest, opts, outcomes.take(k))
}

/// Whether a step is a run whose arguments begin with a word.
pub open spec fn runs_with(step: UpdateView, word: Seq<char>) -> bool {
    step matches UpdateView::Run(run) && run.args.len() > 0 && run.args[0] == word
}

/// An update that ends well has brought something in: one of its runs, which
/// succeeded, was a fetch or a pull. One that went by a remote branch pulled,
/// without merging; and its last run updated the submodules if and only if
/// that was asked for.
#[verifier::rlimit(50)]
pub proof fn law_update_brings_something_in(
    url: Seq<char>,
    dest: Seq<u8>,
    opts: UpdateOptions,
    outcomes: Seq<bool>,
)
    requires
        update_next(url, dest, opts, outcomes) is Finished,
    ensures
        exists|k: int|
            0 <= k < outcomes.len() && outcomes[k] && (runs_with(
                #[trigger] update_at(url, dest, opts, outcomes, k),
                "fetch"@,
            ) || runs_with(update_at(url, dest, opts, outcomes, k), "pull"@)),
        opts.bare ==> outcomes[0] && update_at(url, dest, opts, outcomes, 0)->Run_0.args.contains(
            url,
        ) && update_at(url, dest, opts, outcomes, 0)->Run_0.args.contains("*:*"@),
        !opts.bare ==> runs_with(update_at(url, dest, opts, outcomes, 0), "rev-parse"@),
        !opts.bare && outcomes[0] ==> exists|k: int|
            0 <= k < outcomes.len() && outcomes[k] && runs_with(
                #[trigger] update_at(url, dest, opts, outcomes, k),
                "pull"@,
            ) && update_at(url, dest, opts, outcomes, k)->Run_0.args == seq!["pull"@, "--ff-only"@],
        forall|k: int|
            0 <= k < outcomes.len() && runs_with(
                #[trigger] update_at(url, dest, opts, outcomes, k),
                "submodule"@,
            ) ==> opts.recursive && outcomes[k] && (forall|j: int|
                0 <= j < k ==> !runs_with(
                    #[trigger] update_at(url, dest, opts, outcomes, j),
                    "submodule"@,
                )),
        opts.recursive && !opts.bare && outcomes[0] ==> exists|k: int|
            0 <= k < outcomes.len() && outcomes[k] && runs_with(
                #[trigger] update_at(url, dest, opts, outcomes, k),
                "submodule"@,
            ) && update_at(url, dest, opts, outcomes, k)->Run_0.args.contains("update"@)
                && update_at(url, dest, opts, outcomes, k)->Run_0.args.contains("--init"@)
                && update_at(url, dest, opts, outcomes, k)->Run_0.args.contains("--recursive"@),
{
    reveal_strlit("fetch");
    reveal_strlit("pull");
    reveal_strlit("rev-parse");
    reveal_strlit("submodule");
    assert("rev-parse"@[0] != "submodule"@[0]);
    assert(outcomes.take(0).len() == 0);
    if opts.bare {
        assert(runs_with(update_at(url, dest, opts, outcomes, 0), "fetch"@));
        assert(update_at(url, dest, opts, outcomes, 0)->Run_0.args[1] == url);
        assert(update_at(url, dest, opts, outcomes, 0)->Run_0.args[2] == "*:*"@);
    } else {
        assert(runs_with(update_at(url, dest, opts, outcomes, 0), "rev-parse"@));
        assert(outcomes.take(1)[0] == outcomes[0]);
        if outcomes[0] {
            let step = update_at(url, dest, opts, outcomes, 1);
            assert(runs_with(step, "pull"@));
            assert(step->Run_0.args =~= seq!["pull"@, "--ff-only"@]);
            if outcomes.len() > 2 {
                assert(outcomes.take(2)[0] && outcomes.take(2)[1]);
                if opts.recursive {
                    let more = update_at(url, dest, opts, outcomes, 2);
                    assert(runs_with(more, "submodule"@));
                    assert(more->Run_0.args[1] == "update"@);
                    assert(more->Run_0.args[2] == "--init"@);
                    assert(more->Run_0.args[3] == "--recursive"@);
                }
            }
        } else {
            assert(runs_with(update_at(url, dest, opts, outcomes, 1), "fetch"@));
        }
    }
    assert forall|k: int|
        0 <= k < outcomes.len() && runs_with(
            #[trigger] update_at(url, dest, opts, outcomes, k),
            "submodule"@,
        ) implies opts.recursive && outcomes[k] && (forall|j: int|
        0 <= j < k ==> !runs_with(
            #[trigger] update_at(url, dest, opts, outcomes, j),
            "submodule"@,
        )) by {
        let seen = outcomes.take(k);
        assert(seen.len() == k);
        assert(forall|i: int| 0 <= i < k ==> #[trigger] seen[i] == outcomes[i]);
        assert(k == 2);
        assert forall|j: int| 0 <= j < k implies !runs_with(
            #[trigger] update_at(url, dest, opts, outcomes, j),
            "submodule"@,
        ) by {
            assert(outcomes.take(j).len() == j);
        }
    }
}

/// An update stops with the run that fails, and not before: whether a copy
/// follows a remote branch is asked, and may be denied; any other run that
/// fails is the last one and fails the update, and none that succeeds does.
pub proof fn law_update_ends_as_its_last_run(
    url: Seq<char>,
    dest: Seq<u8>,
    opts: UpdateOptions,
    outcomes: Seq<bool>,
)
    requires
        outcomes.len() > 0,
        update_next(url, dest, opts, outcomes.drop_last()) is Run,
    ensures
        update_next(url, dest, opts, outcomes) is Failed <==> !outcomes.last() && !runs_with(
            update_next(url, dest, opts, outcomes.drop_last()),
            "rev-parse"@,
        ),
        update_next(url, dest, opts, outcomes) is Finished ==> outcomes.last(),
{
    reveal_strlit("fetch");
    reveal_strlit("pull");
    reveal_strlit("rev-parse");
    reveal_strlit("submodule");
    assert("rev-parse"@[0] != "submodule"@[0]);
    let before = outcomes.drop_last();
    assert(forall|i: int| 0 <= i < before.len() ==> #[trigger] before[i] == outcomes[i]);
}

/// Silence decides only whether output is shown: with and without it an
/// update does the same, in the same place, and ends the same way. With it
/// nothing is shown; without it everything is, but for the question about the
/// remote branch and the fetch of a bare copy.
pub proof fn law_silence_changes_no_step(
    url: Seq<char>,
    dest: Seq<u8>,
    opts: UpdateOptions,
    silent: bool,
    outcomes: Seq<bool>,
)
    ensures
        ({
            let a = update_next(url, dest, opts, outcomes);
            let b = update_next(url, dest, (UpdateOptions { silent, ..opts }), outcomes);
            match (a, b) {
                (UpdateView::Run(one), UpdateView::Run(other)) => one.args == other.args && one.dir
                    == other.dir && one.dir == Some(dest) && (opts.silent ==> one.silent) && (
                opts.silent == silent ==> one.silent == other.silent) && (one.silent
                    == opts.silent || opts.bare || one.args[0] == "rev-parse"@),
                _ => a == b,
            }
        }),
{
}

/// Texts with a blank between each two of them.
pub open spec fn spaced(args: Seq<Seq<char>>) -> Seq<char> {
    joined(args, ' ')
}

fn spaced_text(args: &Vec<String>) -> (r: String)
    ensures
        r@ == spaced(texts(args@)),
{
    let ghost all = texts(args@);
    let mut out = String::new();
    let mut i: usize = 0;
    proof {
        assert(all.take(0) =~= Seq::empty());
        assert(out@ =~= spaced(all.take(0)));
    }
    while i < args.len()
        invariant
            i <= args@.len(),
            all == texts(args@),
            out@ == spaced(all.take(i as int)),
        decreases args@.len() - i,
    {
        let ghost before = out@;
        let ghost next = all.take(i + 1);
        proof {
            assert(next.drop_last() =~= all.take(i as int));
            assert(next.last() == args@[i as int]@);
        }
        if i == 0 {
            out = String::from_str(args[0].as_str());
            assert(next.len() == 1);
        } else {
            out.push(' ');
            out = out.concat(args[i].as_str());
            assert(out@ =~= before.push(' ') + next.last());
        }
        i += 1;
    }
    assert(all.take(i as int) =~= all);
    out
}

/// What comes of a run of git that ended, given whether it succeeded and with
/// which status.
pub fn run_outcome(run: &GitRun, success: bool, status: Option<i32>) -> (r: Result<(), GitError>)
    ensures
        match r {
            Ok(()) => success,
            Err(GitError::NonZeroExit { args, dir, status: code }) => !success && args@ == spaced(
                run@.args,
            ) && dir@ == (match run@.dir {
                Some(d) => shown_path(d),
                None => Seq::empty(),
            }) && code == (match status {
                Some(n) => n,
                None => -1i32,
            }),
            Err(_) => false,
        },
{
    if success {
        return Ok(());
    }
    let dir = match &run.dir {
        Some(d) => lossy_text(d.as_slice()),
        None => {
            let none = String::new();
            assert(none@ =~= Seq::<char>::empty());
            none
        },
    };
    let code: i32 = match status {
        Some(n) => n,
        None => -1,
    };
    Err(GitError::NonZeroExit { args: spaced_text(&run.args), dir, status: code })
}

/// What is seen on disk of a place that may hold a repository.
#[derive(Debug, Clone, Copy, PartialEq, Eq, Structural)]
pub struct RepoFacts {
    pub exists: bool,
    /// Whether `.git` in it is a directory.
    pub dot_git_is_dir: bool,
    /// Whether `HEAD` in it is a file.
    pub head_is_file: bool,
    /// Whether `objects` in it is a directory.
    pub objects_is_dir: bool,
    /// Whether `refs` in it is a directory.
    pub refs_is_dir: bool,
}

/// The name that a path ends in, where it is UTF-8.
pub open spec fn text_name(p: Seq<u8>) -> Option<Seq<u8>> {
    match last_name(p) {
        Some(name) if valid_utf8(name) => Some(name),
        _ => None,
    }
}

/// The name that a path ends in, where it is UTF-8.
pub fn utf8_name(p: &[u8]) -> (r: Option<Vec<u8>>)
    ensures
        opt_view(r) == text_name(p@),
{
    match file_name(p) {
        Some(name) => {
            if utf8_text(name.as_slice()).is_some() {
                Some(name)
            } else {
                None
            }
        },
        None => None,
    }
}

/// Whether a place holds a repository: a working copy by its `.git`
/// directory, a bare one by its name and what git keeps in it.
pub open spec fn is_repository(dest: Seq<u8>, seen: RepoFacts) -> bool {
    seen.exists && (seen.dot_git_is_dir || ((text_name(dest) matches Some(name) && has_suffix(
        name,
        encode_utf8(".git"@),
    )) && seen.head_is_file && seen.objects_is_dir && seen.refs_is_dir))
}

/// Whether a place holds a repository.
pub fn dest_is_git_repo(dest: &[u8], seen: &RepoFacts) -> (r: bool)
    ensures
        r == is_repository(dest@, *seen),
{
    if !seen.exists {
        return false;
    }
    if seen.dot_git_is_dir {
        return true;
    }
    let named = match utf8_name(dest) {
        Some(name) => ends_with(name.as_slice(), ".git".as_bytes()),
        None => false,
    };
    named && seen.head_is_file && seen.objects_is_dir && seen.refs_is_dir
}

/// A number without its sign.
pub open spec fn unsigned_digits(s: Seq<u8>) -> Seq<u8> {
    if s.len() > 0 && (s[0] == 0x2d || s[0] == 0x2b) {
        s.skip(1)
    } else {
        s
    }
}

/// The number that a byte string spells, where it has a place in 32 bits.
pub open spec fn small_int(s: Seq<u8>) -> Option<int> {
    let negative = s.len() > 0 && s[0] == 0x2d;
    let digits = unsigned_digits(s);
    if !is_decimal(digits) {
        None
    } else if negative && decimal_value(digits) <= 0x8000_0000 {
        Some(-decimal_value(digits))
    } else if !negative && decimal_value(digits) <= 0x7fff_ffff {
        Some(decimal_value(digits) as int)
    } else {
        None
    }
}

/// The number that a byte string spells.
fn parse_small_int(s: &[u8]) -> (r: Option<i32>)
    ensures
        match r {
            Some(n) => small_int(s@) == Some(n as int),
            None => small_int(s@) is None,
        },
{
    let negative = s.len() > 0 && s[0] == 0x2d;
    let end: usize = s.len();
    let digits = if s.len() > 0 && (s[0] == 0x2d || s[0] == 0x2b) {
        slice_subrange(s, 1, end)
    } else {
        s
    };
    assert(digits@ =~= unsigned_digits(s@));
    let max: u64 = if negative {
        0x8000_0000
    } else {
        0x7fff_ffff
    };
    match parse_decimal(digits, max) {
        Some(n) => {
            if negative {
                Some((-(n as i64)) as i32)
            } else {
                Some(n as i32)
            }
        },
        None => None,
    }
}

/// The process that a directory was made by which a clone is made in, by its
/// name: `<name>.tmp-<pid>`.
pub open spec fn maker_of(name: Seq<u8>, sibling: Seq<u8>) -> Option<int> {
    let prefix = name + encode_utf8(".tmp-"@);
    if has_prefix(sibling, prefix) {
        small_int(sibling.skip(prefix.len() as int))
    } else {
        None
    }
}

/// The process that a directory beside a destination was made by.
pub fn tmp_pid(dest: &[u8], sibling: &[u8]) -> (r: Option<i32>)
    ensures
        match text_name(dest@) {
            Some(name) => match r {
                Some(pid) => maker_of(name, sibling@) == Some(pid as int),
                None => maker_of(name, sibling@) is None,
            },
            None => r is None,
        },
{
    let mut prefix = match utf8_name(dest) {
        Some(name) => name,
        None => return None,
    };
    push_all(&mut prefix, ".tmp-".as_bytes());
    if !starts_with(sibling, prefix.as_slice()) {
        return None;
    }
    let end: usize = sibling.len();
    let rest = slice_subrange(sibling, prefix.len(), end);
    assert(rest@ =~= sibling@.skip(prefix@.len() as int));
    parse_small_int(rest)
}

/// Whether a process is alive, given what asking for it said: a number that
/// is not positive is no process's.
pub fn pid_is_alive(pid: i32, answered: bool) -> (r: bool)
    ensures
        r == (pid > 0 && answered),
{
    pid > 0 && answered
}

/// Whether a name beside a destination is that of a directory which a process
/// left behind that is no more.
pub open spec fn is_stale(name: Seq<u8>, sibling: Seq<u8>, answered: bool) -> bool {
    maker_of(name, sibling) matches Some(pid) && !(pid > 0 && answered)
}

/// The directories beside a destination that were left behind, in order.
pub open spec fn stale_of(
    dir: Seq<u8>,
    name: Seq<u8>,
    siblings: Seq<Seq<u8>>,
    alive: Seq<bool>,
) -> Seq<Seq<u8>>
    decreases siblings.len(),
{
    if siblings.len() == 0 {
        Seq::empty()
    } else {
        let i = siblings.len() - 1;
        let before = stale_of(dir, name, siblings.drop_last(), alive);
        if is_stale(name, siblings[i], i < alive.len() && alive[i]) {
            before.push(joined_path(dir, siblings[i]))
        } else {
            before
        }
    }
}

/// The directories beside a destination that were left behind by processes
/// which are no more, given the names beside it and, for each that
/// [`tmp_pid`] finds a process in, whether asking said that it is alive.
pub fn stale_tmp_paths(dest: &[u8], siblings: &[Vec<u8>], alive: &[bool]) -> (r: Vec<Vec<u8>>)
    ensures
        views(r@) == (match (parent_dir(dest@), text_name(dest@)) {
            (Some(dir), Some(name)) => stale_of(dir, name, views(siblings@), alive@),
            _ => Seq::empty(),
        }),
{
    let mut out: Vec<Vec<u8>> = Vec::new();
    assert(views(out@) =~= Seq::empty());
    let dir = match parent(dest) {
        Some(dir) => dir,
        None => return out,
    };
    let name = match utf8_name(dest) {
        Some(name) => name,
        None => return out,
    };
    let ghost all = views(siblings@);
    let mut i: usize = 0;
    assert(all.take(0) =~= Seq::empty());
    while i < siblings.len()
        invariant
            i <= siblings@.len(),
            all == views(siblings@),
            text_name(dest@) == Some(name@),
            views(out@) == stale_of(dir@, name@, all.take(i as int), alive@),
        decreases siblings@.len() - i,
    {
        proof {
            assert(all.take(i + 1).drop_last() =~= all.take(i as int));
            assert(all.take(i + 1)[i as int] == siblings@[i as int]@);
        }
        if let Some(pid) = tmp_pid(dest, siblings[i].as_slice()) {
            if !pid_is_alive(pid, i < alive.len() && alive[i]) {
                let ghost before = views(out@);
                let path = join(dir.as_slice(), siblings[i].as_slice());
                let ghost added = path@;
                out.push(path);
                assert(views(out@) =~= before.push(added));
            }
        }
        i += 1;
    }
    assert(all.take(i as int) =~= all);
    out
}

/// A repository is recognised by its `.git` directory, whatever it is called.
/// Without one, only a directory whose name ends in `.git` is one, and only
/// with all three of what git keeps in it. Nothing is none.
pub proof fn law_repository_is_recognised(dir: Seq<u8>, name: Seq<u8>, seen: RepoFacts)
    requires
        dir.len() > 0,
        cut(dir) == dir,
        is_name(name),
        valid_utf8(name),
    ensures
        ({
            let dest = joined_path(dir, name);
            &&& !seen.exists ==> !is_repository(dest, seen)
            &&& seen.exists && seen.dot_git_is_dir ==> is_repository(dest, seen)
            &&& seen.exists && !seen.dot_git_is_dir && has_suffix(name, encode_utf8(".git"@)) ==> (
            is_repository(dest, seen) <==> seen.head_is_file && seen.objects_is_dir
                && seen.refs_is_dir)
            &&& !seen.dot_git_is_dir && !has_suffix(name, encode_utf8(".git"@)) ==> !is_repository(
                dest,
                seen,
            )
        }),
{
    law_joined_path_comes_apart(dir, name);
}

/// The directory that something is made in has to be there first: the one
/// that a path names before its last name, and none for a name alone.
pub proof fn law_directory_comes_first(dir: Seq<u8>, name: Seq<u8>)
    requires
        dir.len() > 0,
        cut(dir) == dir,
        is_name(name),
    ensures
        needed_dir(joined_path(dir, name)) == Some(dir),
        needed_dir(name) is None,
{
    law_joined_path_comes_apart(dir, name);
}

/// What counts as left behind is a directory beside the destination that is
/// called after it, with a process behind its name that is not alive; and
/// every such directory counts, the living ones' never.
pub proof fn law_only_abandoned_clones_are_stale(
    dir: Seq<u8>,
    name: Seq<u8>,
    siblings: Seq<Seq<u8>>,
    alive: Seq<bool>,
)
    requires
        alive.len() == siblings.len(),
    ensures
        forall|p: Seq<u8>| #[trigger]
            stale_of(dir, name, siblings, alive).contains(p) <==> exists|i: int|
                0 <= i < siblings.len() && p == joined_path(dir, #[trigger] siblings[i])
                    && has_prefix(siblings[i], name + encode_utf8(".tmp-"@)) && (small_int(
                    siblings[i].skip((name + encode_utf8(".tmp-"@)).len() as int),
                ) matches Some(pid) && (pid <= 0 || !alive[i])),
{
    lemma_stale(dir, name, siblings, alive);
}

proof fn lemma_stale(dir: Seq<u8>, name: Seq<u8>, siblings: Seq<Seq<u8>>, alive: Seq<bool>)
    requires
        siblings.len() <= alive.len(),
    ensures
        forall|p: Seq<u8>| #[trigger]
            stale_of(dir, name, siblings, alive).contains(p) <==> exists|i: int|
                0 <= i < siblings.len() && p == joined_path(dir, #[trigger] siblings[i])
                    && is_stale(name, siblings[i], alive[i]),
    decreases siblings.len(),
{
    let found = stale_of(dir, name, siblings, alive);
    if siblings.len() > 0 {
        let shorter = siblings.drop_last();
        lemma_stale(dir, name, shorter, alive);
        let before = stale_of(dir, name, shorter, alive);
        let last = siblings.len() - 1;
        assert forall|p: Seq<u8>| #[trigger] found.contains(p) <==> exists|i: int|
            0 <= i < siblings.len() && p == joined_path(dir, #[trigger] siblings[i]) && is_stale(
                name,
                siblings[i],
                alive[i],
            ) by {
            if found.contains(p) {
                let k = choose|k: int| 0 <= k < found.len() && found[k] == p;
                if k < before.len() {
                    assert(before[k] == p);
                    assert(before.contains(p));
                    let i = choose|i: int|
                        0 <= i < shorter.len() && p == joined_path(dir, #[trigger] shorter[i])
                            && is_stale(name, shorter[i], alive[i]);
                    assert(siblings[i] == shorter[i]);
                } else {
                    assert(p == joined_path(dir, siblings[last]));
                }
            }
            if exists|i: int|
                0 <= i < siblings.len() && p == joined_path(dir, #[trigger] siblings[i])
                    && is_stale(name, siblings[i], alive[i]) {
                let i = choose|i: int|
                    0 <= i < siblings.len() && p == joined_path(dir, #[trigger] siblings[i])
                        && is_stale(name, siblings[i], alive[i]);
                if i < last {
                    assert(shorter[i] == siblings[i]);
                    assert(before.contains(p));
                    let k = choose|k: int| 0 <= k < before.len() && before[k] == p;
                    assert(found[k] == p);
                } else {
                    assert(found[before.len() as int] == p);
                }
            }
        }
    }
}

/// A number is read as what its digits say, with the sign before them, as far
/// as it has a place in 32 bits; anything else is none.
pub proof fn law_small_numbers(digits: Seq<u8>)
    requires
        is_decimal(digits),
    ensures
        small_int(digits) == (if decimal_value(digits) < 0x8000_0000 {
            Some(decimal_value(digits) as int)
        } else {
            None
        }),
        small_int(seq![0x2bu8] + digits) == small_int(digits),
        decimal_value(digits) < 0x8000_0000 ==> small_int(seq![0x2du8] + digits) == Some(
            -decimal_value(digits) as int,
        ),
        small_int(digits.push(0x2d)) is None,
        small_int(Seq::empty()) is None,
{
    assert((seq![0x2bu8] + digits).skip(1) =~= digits);
    assert((seq![0x2du8] + digits).skip(1) =~= digits);
    assert(is_digit(digits[0]));
    let wrong = digits.push(0x2d);
    assert(wrong[0] == digits[0]);
    assert(wrong.last() == 0x2d);
    assert(!is_digit(wrong[wrong.len() - 1]));
}

} // verus!
