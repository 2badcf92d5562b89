use scap::vcs::git::{
    clone, dest_is_git_repo, dir_for, pid_is_alive, run_outcome, stale_tmp_paths, tmp_pid, update,
    CloneOptions, GitError, GitRun, RepoFacts, UpdateOptions, UpdateStep,
};

const NOTHING: RepoFacts = RepoFacts {
    exists: false,
    dot_git_is_dir: false,
    head_is_file: false,
    objects_is_dir: false,
    refs_is_dir: false,
};

const BARE: RepoFacts = RepoFacts {
    exists: true,
    dot_git_is_dir: false,
    head_is_file: true,
    objects_is_dir: true,
    refs_is_dir: true,
};

fn names(list: &[&str]) -> Vec<Vec<u8>> {
    list.iter().map(|n| n.as_bytes().to_vec()).collect()
}

#[test]
fn dest_is_git_repo_accepts_a_worktree_with_a_dot_git_directory() {
    let seen = RepoFacts { exists: true, dot_git_is_dir: true, ..NOTHING };
    assert!(dest_is_git_repo(b"/tmp/repo", &seen));
}

#[test]
fn dest_is_git_repo_rejects_a_plain_directory_and_a_missing_path() {
    let plain = RepoFacts { exists: true, ..NOTHING };
    assert!(!dest_is_git_repo(b"/tmp/plain", &plain), "a directory without .git is not a repository");
    assert!(!dest_is_git_repo(b"/tmp/absent", &NOTHING), "a missing path is not a repository");
}

#[test]
fn dest_is_git_repo_rejects_a_dot_git_file_because_the_arm_requires_a_directory() {
    let seen = RepoFacts { exists: true, dot_git_is_dir: false, ..NOTHING };
    assert!(!dest_is_git_repo(b"/tmp/worktree", &seen));
}

#[test]
fn dest_is_git_repo_accepts_a_complete_bare_repository_named_dot_git() {
    assert!(dest_is_git_repo(b"/tmp/project.git", &BARE));
}

#[test]
fn dest_is_git_repo_requires_both_the_dot_git_suffix_and_the_bare_layout() {
    assert!(!dest_is_git_repo(b"/tmp/project", &BARE), "bare layout without the .git suffix");
    let no_head = RepoFacts { head_is_file: false, ..BARE };
    assert!(!dest_is_git_repo(b"/tmp/no-head.git", &no_head), "missing HEAD");
    let no_objects = RepoFacts { objects_is_dir: false, ..BARE };
    assert!(!dest_is_git_repo(b"/tmp/no-objects.git", &no_objects), "missing objects/");
    let no_refs = RepoFacts { refs_is_dir: false, ..BARE };
    assert!(!dest_is_git_repo(b"/tmp/no-refs.git", &no_refs), "missing refs/");
    assert!(!dest_is_git_repo(b"/tmp/\xff.git", &BARE), "a name that is not UTF-8");
}

#[test]
fn stale_tmp_paths_returns_only_siblings_whose_pid_is_dead() {
    let siblings = names(&[
        "repo.tmp-4194303",
        "repo.tmp-1234",
        "other.tmp-1",
        "repo.tmp-notanumber",
        "repo",
    ]);
    let alive = [false, true, false, false, false];
    let got = stale_tmp_paths(b"/tmp/x/repo", &siblings, &alive);
    assert_eq!(got, names(&["/tmp/x/repo.tmp-4194303"]), "expected only the dead-pid sibling");
}

#[test]
fn stale_tmp_paths_is_empty_when_the_parent_cannot_be_read() {
    assert!(stale_tmp_paths(b"/tmp/x/repo", &[], &[]).is_empty());
    assert!(stale_tmp_paths(b"/tmp/x/absent/repo", &[], &[]).is_empty());
    assert!(stale_tmp_paths(b"/", &names(&["scap.tmp-1"]), &[]).is_empty());
}

#[test]
fn pid_is_alive_reports_this_very_process() {
    let me = 4242;
    assert!(pid_is_alive(me, true), "the probe must see the process making the call");
}

#[test]
fn pid_is_alive_rejects_a_reaped_child() {
    assert!(!pid_is_alive(4242, false), "a reaped child's pid must not read as alive");
}

#[test]
fn pid_is_alive_rejects_pids_no_process_can_have() {
    for answered in [false, true] {
        assert!(!pid_is_alive(0, answered), "pid 0 is the caller's process group, not a process");
        assert!(!pid_is_alive(-1, answered), "a negative pid is a process group, not a process");
    }
}

#[test]
fn stale_tmp_paths_collects_suffixes_that_name_no_process() {
    let siblings = names(&["repo.tmp-0", "repo.tmp--5"]);
    let mut got = stale_tmp_paths(b"/tmp/x/repo", &siblings, &[true, true]);
    got.sort();
    let mut want = names(&["/tmp/x/repo.tmp--5", "/tmp/x/repo.tmp-0"]);
    want.sort();
    assert_eq!(got, want, "a non-positive pid suffix names no live process");
}

#[test]
fn temporary_names_are_read_as_32_bit_numbers() {
    let pid = |name: &str| tmp_pid(b"/x/repo", name.as_bytes());
    assert_eq!(pid("repo.tmp-2147483647"), Some(i32::MAX));
    assert_eq!(pid("repo.tmp--2147483648"), Some(i32::MIN));
    assert_eq!(pid("repo.tmp-2147483648"), None);
    assert_eq!(pid("repo.tmp--2147483649"), None);
    assert_eq!(pid("repo.tmp-+7"), Some(7));
    assert_eq!(pid("repo.tmp-"), None);
    assert_eq!(pid("repo.tmp-7x"), None);
    assert_eq!(pid("repo2.tmp-7"), None);
    for n in ["repo.tmp-99999999999999999999", "repo.tmp-007", "repo.tmp--0"] {
        assert_eq!(pid(n), n["repo.tmp-".len()..].parse::<i32>().ok(), "{n}");
    }
}

fn options() -> CloneOptions {
    CloneOptions {
        shallow: false,
        branch: None,
        recursive: false,
        bare: false,
        partial: None,
        silent: false,
    }
}

#[test]
fn a_clone_passes_its_options_to_git() {
    let plain = clone("https://h/o/n", b"/d/n", &options());
    assert_eq!(plain.args, ["clone", "https://h/o/n", "/d/n"]);
    assert_eq!((plain.dir, plain.silent), (None, false));
    let all = CloneOptions {
        shallow: true,
        branch: Some("main".to_owned()),
        recursive: true,
        bare: true,
        partial: Some("blobless".to_owned()),
        silent: true,
    };
    let run = clone("u", b"d\xff", &all);
    assert_eq!(
        run.args,
        [
            "clone", "--depth", "1", "--branch", "main", "--single-branch", "--recursive", "--bare",
            "--filter=blob:none", "u", "d\u{fffd}"
        ]
    );
    assert!(run.silent);
    let treeless = CloneOptions { partial: Some("treeless".to_owned()), ..options() };
    assert_eq!(clone("u", b"d", &treeless).args, ["clone", "--filter=tree:0", "u", "d"]);
    let unknown = CloneOptions { partial: Some("other".to_owned()), ..options() };
    assert_eq!(clone("u", b"d", &unknown).args, ["clone", "u", "d"]);
}

fn step(bare: bool, recursive: bool, outcomes: &[bool]) -> String {
    let opts = UpdateOptions { bare, recursive, silent: false };
    match update("url", b"/d", &opts, outcomes) {
        UpdateStep::Run(run) => {
            assert_eq!(run.dir.as_deref(), Some(b"/d".as_slice()));
            format!("{}{}", if run.silent { "silent " } else { "" }, run.args.join(" "))
        }
        UpdateStep::Finished => "finished".to_owned(),
        UpdateStep::Failed => "failed".to_owned(),
    }
}

#[test]
fn an_update_follows_the_upstream_branch() {
    assert_eq!(step(true, true, &[]), "silent fetch url *:*");
    assert_eq!(step(true, true, &[true]), "finished");
    assert_eq!(step(true, true, &[false]), "failed");
    assert_eq!(step(false, true, &[]), "silent rev-parse @{upstream}");
    assert_eq!(step(false, true, &[false]), "fetch");
    assert_eq!(step(false, true, &[false, true]), "finished");
    assert_eq!(step(false, true, &[false, false]), "failed");
    assert_eq!(step(false, true, &[true]), "pull --ff-only");
    assert_eq!(step(false, true, &[true, false]), "failed");
    assert_eq!(step(false, false, &[true, true]), "finished");
    assert_eq!(step(false, true, &[true, true]), "submodule update --init --recursive");
    assert_eq!(step(false, true, &[true, true, true]), "finished");
    assert_eq!(step(false, true, &[true, true, false]), "failed");
}

#[test]
fn a_failed_run_names_the_command() {
    let run = GitRun {
        dir: Some(b"/d".to_vec()),
        silent: false,
        args: vec!["fetch".to_owned(), "url".to_owned()],
    };
    assert!(run_outcome(&run, true, Some(0)).is_ok());
    let err = run_outcome(&run, false, Some(128)).unwrap_err();
    assert_eq!(err.message(), "`git fetch url` in /d failed (status 128)");
    let nowhere = GitRun { dir: None, silent: false, args: vec!["x".to_owned()] };
    assert_eq!(
        run_outcome(&nowhere, false, None).unwrap_err().message(),
        "`git x` in  failed (status -1)"
    );
    assert_eq!(GitError::Spawn("gone".to_owned()).message(), "failed to invoke `git`: gone");
}

#[test]
fn the_directory_for_a_path_is_its_parent() {
    assert_eq!(dir_for(b"/a/b").as_deref(), Some(b"/a".as_slice()));
    assert_eq!(dir_for(b"a"), None);
    assert_eq!(dir_for(b"/"), None);
}
