use scap::cli::{CreateArgs, GetArgs, RmArgs, RootArgs};
use scap::cmd::create;
use scap::cmd::get::{
    advance, collect_targets, effective, failed_to_get, lock_path_for, look_name, look_shell, next,
    process_target, remote, tmp_path_for, workers, CloneState, GetStep, Input, TargetStep,
    PARALLEL_WORKERS,
};
use scap::cmd::rm::{self, RmStep};
use scap::cmd::{get, is_not_exist_or_empty, root, target_dest, target_repo, CmdError, DirState};
use scap::config::{from_listing, Env, Reason};
use scap::logging::{checked_log_env, pick, readable, resolve_log_env};
use scap::parse_repo_input;
use scap::paths::file_name;
use scap::text::{decimal_text, strip};
use scap::vcs::git::{stale_tmp_paths, tmp_pid};

#[test]
fn is_not_exist_or_empty_reports_true_for_a_missing_path() {
    assert!(is_not_exist_or_empty(b"/t/absent", DirState::Missing)
        .expect("missing path is not an error"));
}

#[test]
fn is_not_exist_or_empty_reports_true_for_an_empty_directory() {
    assert!(is_not_exist_or_empty(b"/t/empty", DirState::Empty)
        .expect("empty dir is not an error"));
}

#[test]
fn is_not_exist_or_empty_reports_false_for_a_directory_holding_anything() {
    assert!(!is_not_exist_or_empty(b"/t/with-file", DirState::Occupied)
        .expect("populated dir is not an error"));
}

#[test]
fn is_not_exist_or_empty_errors_when_the_path_is_a_file() {
    let err = is_not_exist_or_empty(b"/t/a-file", DirState::NotADirectory)
        .expect_err("a file must be an error, not `true`");
    assert!(err.message().contains("exists but is not a directory"), "{}", err.message());
    assert!(err.message().contains("a-file"), "error must name the path: {}", err.message());
}

// create

fn create_args(vcs: Option<&str>, bare: bool, target: &str) -> CreateArgs {
    CreateArgs { vcs: vcs.map(str::to_owned), bare, target: target.to_owned() }
}

#[test]
fn a_repository_is_created_where_nothing_is() {
    for state in [DirState::Missing, DirState::Empty] {
        let plan = create::run(&create_args(None, false, "x"), b"/r/x", state).expect("free");
        assert_eq!(plan.init, ["init"]);
        assert_eq!(plan.prints, "/r/x\n");
    }
    let plan = create::run(&create_args(Some("git"), true, "x"), b"/r/x.git", DirState::Missing)
        .expect("free");
    assert_eq!(plan.init, ["init", "--bare"]);
}

#[test]
fn a_repository_is_not_created_where_something_is() {
    let run = |state| create::run(&create_args(None, false, "x"), b"/r/x", state);
    assert!(matches!(run(DirState::Occupied), Err(CmdError::NotEmpty(p)) if p == b"/r/x"));
    assert!(matches!(run(DirState::NotADirectory), Err(CmdError::NotADirectory(p)) if p == b"/r/x"));

    let unnamed = create::run(&create_args(Some("svn"), false, ""), b"/r/x", DirState::Missing);
    assert!(matches!(unnamed, Err(CmdError::TargetRequired)));
    let foreign = create::run(&create_args(Some("svn"), false, "x"), b"/r/x", DirState::Missing);
    assert!(matches!(foreign, Err(CmdError::UnsupportedVcs(v)) if v == "\"svn\""));
}

// rm

fn rm_args(dry_run: bool, target: &str) -> RmArgs {
    RmArgs { dry_run, bare: false, target: target.to_owned() }
}

#[test]
fn a_removal_is_announced_or_asked_for() {
    match rm::run(&rm_args(true, "x"), b"/r/x", DirState::Occupied).expect("there") {
        RmStep::Say(line) => assert_eq!(line, "Would remove /r/x\n"),
        RmStep::Ask(_) => panic!("a dry run asks nothing"),
    }
    match rm::run(&rm_args(false, "x"), b"/r/\xff", DirState::Occupied).expect("there") {
        RmStep::Ask(question) => assert_eq!(question, "Remove /r/\u{fffd}? [y/N]: "),
        RmStep::Say(_) => panic!("it was not a dry run"),
    }
    for state in [DirState::Missing, DirState::Empty] {
        let err = rm::run(&rm_args(false, "x"), b"/r/x", state).expect_err("nothing there");
        assert!(matches!(err, CmdError::Missing(_)));
    }
    let file = rm::run(&rm_args(false, "x"), b"/r/x", DirState::NotADirectory);
    assert!(matches!(file, Err(CmdError::NotADirectory(_))));
    let unnamed = rm::run(&rm_args(false, ""), b"/r/x", DirState::Occupied);
    assert!(matches!(unnamed, Err(CmdError::TargetRequired)));
}

#[test]
fn only_y_removes() {
    for yes in ["y", "y\n", "y\r\n", "y\n\n"] {
        assert!(rm::confirm(yes), "{yes:?}");
    }
    for no in ["", "\n", "Y\n", "yes\n", " y\n", "y \n", "n\n", "\ny"] {
        assert!(!rm::confirm(no), "{no:?}");
    }
    assert_eq!(rm::answered(b"/r/x", "y\n").expect("confirmed"), "Removed /r/x\n");
    assert!(matches!(rm::answered(b"/r/x", "\n"), Err(CmdError::Aborted)));
}

// root

#[test]
fn the_first_root_is_printed_or_all_are() {
    let roots = vec![b"/a".to_vec(), b"/b".to_vec()];
    assert_eq!(root::run(&RootArgs { all: false }, &roots), "/a\n");
    assert_eq!(root::run(&RootArgs { all: true }, &roots), "/a\n/b\n");
    assert_eq!(root::run(&RootArgs { all: false }, &Vec::new()), "");
}

// get

fn get_args(targets: &[&str]) -> GetArgs {
    GetArgs {
        update: false,
        ssh: false,
        shallow: false,
        look: false,
        silent: false,
        no_recursive: false,
        branch: None,
        bare: false,
        partial: None,
        parallel: false,
        vcs: None,
        targets: targets.iter().map(|t| (*t).to_owned()).collect(),
    }
}

fn lines(list: &[&str]) -> Input {
    Input::Lines(list.iter().map(|l| (*l).to_owned()).collect())
}

#[test]
fn targets_come_from_the_arguments_or_else_from_the_input() {
    assert_eq!(collect_targets(&get_args(&["a", " "]), &lines(&["b"])), ["a", " "]);
    assert_eq!(
        collect_targets(&get_args(&[]), &lines(&[" a/b\t", "", "\u{3000}c\r", "  "])),
        ["a/b", "c"]
    );
    assert!(collect_targets(&get_args(&[]), &Input::Terminal).is_empty());
}

#[test]
fn getting_needs_a_target() {
    assert!(matches!(get::run(&get_args(&[]), &Input::Terminal), Err(CmdError::NoTargets)));
    assert!(matches!(get::run(&get_args(&[]), &lines(&[" "])), Err(CmdError::NoTargets)));
    let plan = get::run(&get_args(&["a"]), &Input::Terminal).expect("a target");
    assert_eq!(plan.targets, ["a"]);
    let mut foreign = get_args(&[]);
    foreign.vcs = Some("hg".to_owned());
    assert!(matches!(
        get::run(&foreign, &Input::Terminal),
        Err(CmdError::UnsupportedVcs(v)) if v == "\"hg\""
    ));
}

#[test]
fn a_parallel_get_is_silent() {
    let mut args = get_args(&["a"]);
    assert!(!effective(&args).silent);
    args.parallel = true;
    assert!(effective(&args).silent);
    args.parallel = false;
    args.silent = true;
    assert!(effective(&args).silent);
}

#[test]
fn targets_are_got_in_order_until_one_fails() {
    let mut args = get_args(&["a", "b", "c"]);
    args.look = true;
    let plan = get::run(&args, &Input::Terminal).expect("targets");
    assert_eq!(next(&plan, &[]), GetStep::Get(0));
    assert_eq!(next(&plan, &[true]), GetStep::Get(1));
    assert_eq!(next(&plan, &[true, false]), GetStep::Failed(1));
    assert_eq!(next(&plan, &[false, true, false]), GetStep::Failed(0));
    assert_eq!(next(&plan, &[true, true, true]), GetStep::Look);

    args.parallel = true;
    let plan = get::run(&args, &Input::Terminal).expect("targets");
    assert_eq!(next(&plan, &[false]), GetStep::Get(1));
    assert_eq!(next(&plan, &[false, false, true]), GetStep::Look);

    args.look = false;
    let plan = get::run(&args, &Input::Terminal).expect("targets");
    assert_eq!(next(&plan, &[false, false, true]), GetStep::Done);
}

#[test]
fn the_shell_is_the_one_that_is_named() {
    assert_eq!(look_shell(Some("/bin/zsh")), "/bin/zsh");
    assert_eq!(look_shell(None), "/bin/sh");
}

#[test]
fn there_is_a_worker_for_every_target_up_to_a_limit() {
    assert_eq!(workers(0), 1);
    assert_eq!(workers(1), 1);
    assert_eq!(workers(5), 5);
    assert_eq!(workers(6), PARALLEL_WORKERS);
    assert_eq!(workers(100), 6);
}

#[test]
fn a_repository_that_is_there_is_kept_or_updated() {
    let mut args = get_args(&["a"]);
    args.branch = Some("main".to_owned());
    args.shallow = true;
    args.no_recursive = true;
    assert!(matches!(process_target(&effective(&args), true), TargetStep::Skip));
    match process_target(&effective(&args), false) {
        TargetStep::Clone(opts) => {
            assert!(opts.shallow && !opts.recursive && !opts.bare && !opts.silent);
            assert_eq!(opts.branch.as_deref(), Some("main"));
            assert_eq!(opts.partial, None);
        }
        other => panic!("{other:?}"),
    }
    args.update = true;
    match process_target(&effective(&args), true) {
        TargetStep::Update(opts) => assert!(!opts.bare && !opts.recursive && !opts.silent),
        other => panic!("{other:?}"),
    }
    assert!(matches!(process_target(&effective(&args), false), TargetStep::Clone(_)));
}

#[test]
fn a_remote_is_what_the_argument_and_the_switch_say() {
    let repo = parse_repo_input("zchee/scap", None, false, None).expect("a repository");
    assert_eq!(remote(&repo, false), "https://github.com/zchee/scap");
    assert_eq!(remote(&repo, true), "ssh://git@github.com/zchee/scap");
    assert_eq!(look_name(&repo), "github.com/zchee/scap");
    assert_eq!(failed_to_get("a\"b"), "failed to get \"a\\\"b\"");
}

#[test]
fn a_clone_is_made_beside_its_destination() {
    assert_eq!(lock_path_for(b"/r/h/o/n"), b"/r/h/o/.scap-lock-n");
    assert_eq!(tmp_path_for(b"/r/h/o/n", 42), b"/r/h/o/n.tmp-42");
    assert_eq!(lock_path_for(b"/"), b"./.scap-lock-scap");
    assert_eq!(tmp_path_for(b"/r/\xff", 7), b"/r/scap.tmp-7");
}

#[test]
fn a_temporary_clone_is_recognised_by_who_made_it() {
    let tmp = tmp_path_for(b"/r/h/o/n", 4_000_000);
    let name = file_name(&tmp).expect("a name");
    assert_eq!(tmp_pid(b"/r/h/o/n", &name), Some(4_000_000));
    assert_eq!(stale_tmp_paths(b"/r/h/o/n", &[name.clone()], &[false]), vec![tmp]);
    assert!(stale_tmp_paths(b"/r/h/o/n", &[name], &[true]).is_empty());
}

fn course(outcomes: &[bool]) -> CloneState {
    outcomes.iter().fold(CloneState::LockDir, |state, ok| advance(state, *ok))
}

#[test]
fn a_clone_that_succeeds_moves_and_unlocks() {
    let mut seen = Vec::new();
    let mut state = CloneState::LockDir;
    while !matches!(state, CloneState::Finished { .. }) {
        seen.push(state);
        state = advance(state, true);
    }
    assert_eq!(
        seen,
        vec![
            CloneState::LockDir,
            CloneState::OpenLock,
            CloneState::TryLock,
            CloneState::TmpDir,
            CloneState::Clone,
            CloneState::DestDir,
            CloneState::Rename,
            CloneState::Unlock { failed: false },
            CloneState::RemoveLock { failed: false },
        ]
    );
    assert_eq!(state, CloneState::Finished { failed: false });
}

#[test]
fn a_clone_that_fails_cleans_up_and_unlocks() {
    for failing in 3..7 {
        let mut outcomes = vec![true; failing];
        outcomes.push(false);
        assert_eq!(course(&outcomes), CloneState::RemoveTmp, "step {failing}");
        outcomes.extend([false, false, false]);
        assert_eq!(course(&outcomes), CloneState::Finished { failed: true }, "step {failing}");
    }
    assert_eq!(course(&[false]), CloneState::NoLock);
    assert_eq!(course(&[true, false]), CloneState::NoLock);
    assert_eq!(course(&[true, true, false]), CloneState::Busy);
    assert_eq!(course(&[true, true, false, true, true]), CloneState::Busy);
}

#[test]
fn every_clone_ends() {
    for bits in 0..1024u32 {
        let outcomes: Vec<bool> = (0..10).map(|i| bits & (1 << i) != 0).collect();
        let state = course(&outcomes);
        assert!(
            matches!(state, CloneState::Finished { .. } | CloneState::Busy | CloneState::NoLock),
            "{outcomes:?}: {state:?}"
        );
    }
}

// What the commands take from the settings.

#[test]
fn a_target_lies_below_the_root_of_its_remote() {
    let listing = b"file:/x\0scap.root\n/r/../roots\0file:/x\0scap.user\nme\0file:/x\0scap.completeuser\0";
    let snapshot = from_listing(listing, &Env::default(), Reason::EnvOverride);
    let repo = target_repo(&snapshot, "thing", None).expect("a repository");
    assert_eq!(repo.owner, "me");
    let remote = remote(&repo, false);
    let dest = |bare| target_dest(&snapshot, &repo, &remote, None, &[], bare).expect("a root");
    assert_eq!(dest(false), b"/roots/github.com/me/thing");
    assert_eq!(dest(true), b"/roots/github.com/me/thing.git");
    assert!(target_repo(&snapshot, "a/../b", None).is_err());
}

// Logging.

#[test]
fn the_first_filter_that_parses_applies() {
    let text = |s: &str| Some(s.to_owned());
    assert_eq!(resolve_log_env(Some("debug"), Some("info")), (text("debug"), None));
    assert_eq!(resolve_log_env(Some("=[="), Some("debug")), (text("debug"), text("=[=")));
    assert_eq!(resolve_log_env(None, Some("info")), (text("info"), None));
    assert_eq!(resolve_log_env(Some("=[="), None), (None, text("=[=")));
    assert_eq!(resolve_log_env(None, Some("=[=")), (None, text("=[=")));
    assert_eq!(resolve_log_env(None, None), (None, None));
    assert_eq!(resolve_log_env(Some("=[="), Some("}=")), (None, text("=[=")));
    assert_eq!(pick(Some("a"), false, Some("b"), false), (None, text("a")));
    assert_eq!(pick(Some("a"), false, Some("b"), true), (text("b"), text("a")));
    assert_eq!(pick(Some("a"), true, Some("b"), true), (text("a"), None));
}

#[test]
fn a_filter_that_cannot_be_cut_is_not_read() {
    for cut in ["\u{3000}a=b", " a\u{e9}=b", "info, a\u{e9}=b", " \u{e9}[x]"] {
        assert!(!readable(cut), "{cut}");
        assert_eq!(checked_log_env(Some(cut), Some("info")), None, "{cut}");
        assert_eq!(checked_log_env(None, Some(cut)), None, "{cut}");
        assert_eq!(
            checked_log_env(Some("debug"), Some(cut)),
            Some((Some("debug".to_owned()), None)),
            "{cut}: the second value is not looked at"
        );
    }
    for whole in ["", "info", " a=info", "a\u{e9}=info", "\u{3000}\u{e9}", " [a{b=1}]=info ,x"] {
        assert!(readable(whole), "{whole}");
        assert_eq!(
            checked_log_env(Some(whole), None),
            Some(resolve_log_env(Some(whole), None)),
            "{whole}"
        );
    }
}

// Text.

#[test]
fn white_space_is_what_std_takes_for_it() {
    for c in (0..=0x10ffff).filter_map(char::from_u32) {
        let s = format!("{c}{c}a{c}b{c}");
        assert_eq!(strip(&s), s.trim(), "{:x}", c as u32);
    }
    assert_eq!(strip(" \t\n"), "");
}

#[test]
fn numbers_are_written_in_decimal() {
    for n in [0, 7, 10, 1234567890, u64::MAX] {
        assert_eq!(decimal_text(n), n.to_string());
    }
}

#[test]
fn every_command_failure_says_what_it_is() {
    assert_eq!(CmdError::TargetRequired.message(), "repository name is required");
    assert_eq!(
        CmdError::NoTargets.message(),
        "no target args specified. see `scap get -h` for more details"
    );
    assert_eq!(
        CmdError::UnsupportedVcs("\"hg\"".to_owned()).message(),
        "unsupported VCS: \"hg\" (v1 supports git only; see issue tracker for non-git)"
    );
}
