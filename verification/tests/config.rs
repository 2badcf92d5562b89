use scap::config::expand::{interpolate_value, path_or_spelling};
use scap::config::git_backend::{
    apply_env, entries, listing_args, listing_outcome, required_git, urlmatch_args, urlmatch_reason,
};
use scap::config::settings::{boolean_of, read_config, Section};
use scap::config::sources::{
    common_dir_of, default_system_candidates, discovery, enumerate, git_candidates, global_candidates,
    local_config, probe_system_config, resolve_git_program, worktree_config,
    worktree_config_enabled, Discovery, FileMode, Observed, Source,
};
use scap::config::values::{git_boolean, parse_git_int, truthy};
use scap::config::{
    complete_user, from_listing, load, needs_git_backend, reason_text, resolve_roots, root_for_url,
    urlmatch_outcome, user, Backend, ConfigError, ConfigSnapshot, Env, LoadStep, Reason, Stage,
    UrlmatchMemo,
};

fn bytes(s: &str) -> Option<Vec<u8>> {
    Some(s.as_bytes().to_vec())
}

fn paths(list: &[&str]) -> Vec<Vec<u8>> {
    list.iter().map(|p| p.as_bytes().to_vec()).collect()
}

fn home_env() -> Env {
    Env { home: bytes("/home/u"), cwd: bytes("/cwd"), ..Default::default() }
}

/// The configuration that one file makes.
fn load_with(text: &str, env: &Env) -> LoadStep {
    let sections = read_config(text.as_bytes()).expect("a configuration file");
    load(env, Stage::Parsed { system_probe_matches: 0, sections: &sections })
}

fn load_env(text: &str, env: &Env) -> ConfigSnapshot {
    match load_with(text, env) {
        LoadStep::Loaded(snapshot) => snapshot,
        other => panic!("not loaded: {other:?}"),
    }
}

fn load_ok(text: &str) -> ConfigSnapshot {
    load_env(text, &home_env())
}

/// A listing the way git frames it: alternating origin and `key\nvalue`.
fn listing(records: &[(&str, Option<&str>)]) -> Vec<u8> {
    let mut out = Vec::new();
    for (key, value) in records {
        out.extend_from_slice(b"file:/fixture/gitconfig\0");
        out.extend_from_slice(key.as_bytes());
        if let Some(value) = value {
            out.push(b'\n');
            out.extend_from_slice(value.as_bytes());
        }
        out.push(0);
    }
    out
}

/// What git lists for one file.
fn listed(text: &str) -> Vec<u8> {
    let mut out = Vec::new();
    for section in read_config(text.as_bytes()).expect("a configuration file") {
        for entry in section.entries {
            out.extend_from_slice(b"file:/fixture/gitconfig\0");
            out.extend_from_slice(section.name.to_ascii_lowercase().as_bytes());
            if let Some(sub) = &section.subsection {
                out.push(b'.');
                out.extend_from_slice(sub);
            }
            out.push(b'.');
            out.extend_from_slice(entry.name.to_ascii_lowercase().as_bytes());
            if !entry.implicit {
                out.push(b'\n');
                out.extend_from_slice(&entry.value);
            }
            out.push(0);
        }
    }
    out
}

fn via_git(text: &str, env: &Env) -> ConfigSnapshot {
    from_listing(&listed(text), env, Reason::EnvOverride)
}

// Which files are read.

#[test]
fn load_reads_system_xdg_user_and_local_in_git_order() {
    let env = Env { git_config_system: bytes("/system/gitconfig"), ..home_env() };
    let seen = Observed { git_dir: bytes("/cwd/.git"), ..Default::default() };
    let list = enumerate(&env, &seen);
    assert_eq!(
        list.files,
        vec![
            (b"/system/gitconfig".to_vec(), Source::System),
            (b"/home/u/.config/git/config".to_vec(), Source::Git),
            (b"/home/u/.gitconfig".to_vec(), Source::User),
            (b"/cwd/.git/config".to_vec(), Source::Local),
        ]
    );

    let mut sections: Vec<Section> = Vec::new();
    for (_, source) in &list.files {
        let root = match source {
            Source::System => "/from-system",
            Source::Git => "/from-xdg",
            Source::User => "/from-user",
            _ => "/from-local",
        };
        sections.extend(read_config(format!("[scap]\n\troot = {root}\n").as_bytes()).expect("file"));
    }
    let step = load(
        &env,
        Stage::Parsed { system_probe_matches: list.system_probe_matches, sections: &sections },
    );
    match step {
        LoadStep::Loaded(snapshot) => assert_eq!(
            snapshot.roots(),
            paths(&["/from-system", "/from-xdg", "/from-user", "/from-local"])
        ),
        other => panic!("not loaded: {other:?}"),
    }
}

#[test]
fn git_config_global_replaces_both_xdg_and_user_files() {
    let env = Env { git_config_global: bytes("/global/gitconfig"), ..home_env() };
    let list = enumerate(&env, &Observed::default());
    assert_eq!(list.files, vec![(b"/global/gitconfig".to_vec(), Source::User)]);
}

#[test]
fn an_empty_git_config_global_suppresses_the_global_level() {
    let env = Env { git_config_global: bytes(""), ..home_env() };
    let list = enumerate(&env, &Observed::default());
    assert_eq!(list.files, vec![(b"".to_vec(), Source::User)]);
}

#[test]
fn one_global_file_reachable_by_two_paths_is_parsed_once() {
    let env = home_env();
    assert_eq!(global_candidates(&env).len(), 2);
    let seen = Observed {
        global_canonical: vec![bytes("/home/u/.gitconfig"), bytes("/home/u/.gitconfig")],
        ..Default::default()
    };
    let list = enumerate(&env, &seen);
    assert_eq!(list.files, vec![(b"/home/u/.config/git/config".to_vec(), Source::Git)]);
}

#[test]
fn default_system_candidates_are_the_four_prefix_locations() {
    assert_eq!(
        default_system_candidates(),
        paths(&[
            "/etc/gitconfig",
            "/usr/local/etc/gitconfig",
            "/opt/homebrew/etc/gitconfig",
            "/opt/local/etc/gitconfig",
        ])
    );
}

#[test]
fn probe_system_config_reports_zero_one_and_two_matches() {
    let (absent, first, second) = ("/nowhere/gitconfig", "/etc-a/gitconfig", "/etc-b/gitconfig");
    assert!(probe_system_config(&paths(&[absent]), &[false]).is_empty(), "zero matches");
    assert_eq!(
        probe_system_config(&paths(&[absent, first]), &[false, true]),
        paths(&[first]),
        "one match"
    );
    assert_eq!(
        probe_system_config(&paths(&[first, absent, second]), &[true, false, true]),
        paths(&[first, second]),
        "two matches, in the order given"
    );
    assert!(probe_system_config(&paths(&["/etc-a"]), &[]).is_empty());
}

#[test]
fn enumerate_skips_the_system_probe_under_git_config_nosystem() {
    let base = Env { system_probe_candidates: paths(&["/etc/gitconfig"]), ..home_env() };
    let seen = || Observed { system_is_file: vec![true], ..Default::default() };
    let system = (b"/etc/gitconfig".to_vec(), Source::System);

    let probing = enumerate(&base, &seen());
    assert_eq!(probing.system_probe_matches, 1);
    assert!(probing.files.contains(&system));

    for truthy_value in ["1", "true", "yes", "on", "anything-else"] {
        let env = Env { git_config_nosystem: bytes(truthy_value), ..base.clone() };
        let list = enumerate(&env, &seen());
        assert_eq!(list.system_probe_matches, 0, "value: {truthy_value}");
        assert!(!list.files.contains(&system), "value: {truthy_value}");
    }

    for falsey_value in ["", "0", "false", "no", "off"] {
        let env = Env { git_config_nosystem: bytes(falsey_value), ..base.clone() };
        assert_eq!(enumerate(&env, &seen()).system_probe_matches, 1, "value: {falsey_value}");
    }
}

#[test]
fn enumerate_prefers_git_config_system_over_the_probe() {
    let env = Env {
        git_config_system: bytes("/explicit/gitconfig"),
        system_probe_candidates: paths(&["/etc/gitconfig"]),
        ..Default::default()
    };
    let seen = Observed { system_is_file: vec![true], ..Default::default() };
    let list = enumerate(&env, &seen);

    assert_eq!(list.system_probe_matches, 0, "an explicit file means nothing is ambiguous");
    assert_eq!(list.files, vec![(b"/explicit/gitconfig".to_vec(), Source::System)]);
}

#[test]
fn enumerate_appends_config_worktree_only_when_the_extension_is_enabled() {
    let env = Env { git_dir: bytes("/repo/.git"), ..Default::default() };
    let seen = |local: &str| Observed {
        worktree_is_file: true,
        local: bytes(local),
        ..Default::default()
    };
    let without = enumerate(&env, &seen(""));
    assert_eq!(without.git_dir, bytes("/repo/.git"));
    assert_eq!(without.files, vec![(b"/repo/.git/config".to_vec(), Source::Local)]);

    let with = enumerate(&env, &seen("[extensions]\n\tworktreeConfig = true\n"));
    assert_eq!(
        with.files,
        vec![
            (b"/repo/.git/config".to_vec(), Source::Local),
            (b"/repo/.git/config.worktree".to_vec(), Source::Worktree)
        ]
    );
    assert_eq!(worktree_config(b"/repo/.git"), b"/repo/.git/config.worktree");
    assert!(!worktree_config_enabled(None));
    assert!(!worktree_config_enabled(Some(b"[extensions\n")));
    assert!(worktree_config_enabled(Some(b"[Extensions]\n\tWORKTREECONFIG\n")));
}

#[test]
fn enumerate_reads_the_common_dir_config_from_a_linked_worktree() {
    let env = Env { git_dir: bytes("/main/.git/worktrees/wt"), ..Default::default() };
    let common = common_dir_of(b"/main/.git/worktrees/wt", Some(b"../.."));
    let seen = Observed { common_dir: Some(common), ..Default::default() };
    let list = enumerate(&env, &seen);
    assert_eq!(
        list.files,
        vec![(b"/main/.git/worktrees/wt/../../config".to_vec(), Source::Local)]
    );
}

#[test]
fn enumerate_treats_a_main_worktree_as_its_own_common_dir() {
    let env = Env { git_dir: bytes("/repo/.git"), ..Default::default() };
    let list = enumerate(&env, &Observed::default());
    assert_eq!(list.files, vec![(b"/repo/.git/config".to_vec(), Source::Local)]);
    assert_eq!(local_config(b"/repo/.git", None), b"/repo/.git/config");
    assert_eq!(common_dir_of(b"/repo/.git", None), b"/repo/.git");
    assert_eq!(common_dir_of(b"/repo/.git", Some(b"/main/.git")), b"/main/.git");
}

#[test]
fn enumerate_discovers_the_repository_containing_the_cwd() {
    let env = Env { cwd: bytes("/work/a/b/c"), ..Default::default() };
    assert!(matches!(
        discovery(&env),
        Discovery::Upwards { from, ceilings } if from == b"/work/a/b/c" && ceilings.is_empty()
    ));
    let found = Observed { git_dir: bytes("/work/.git"), ..Default::default() };
    assert_eq!(enumerate(&env, &found).git_dir, bytes("/work/.git"));
    assert_eq!(enumerate(&env, &Observed::default()).git_dir, None);

    let ceiled = Env { git_ceiling_directories: bytes("/work/a:/x"), ..env.clone() };
    assert!(matches!(
        discovery(&ceiled),
        Discovery::Upwards { ceilings, .. } if ceilings == paths(&["/work/a", "/x"])
    ));
    let named = Env { git_dir: bytes("/elsewhere"), ..ceiled };
    assert!(matches!(discovery(&named), Discovery::Named(dir) if dir == b"/elsewhere"));
    assert_eq!(enumerate(&named, &found).git_dir, bytes("/elsewhere"));
    assert!(matches!(discovery(&Env::default()), Discovery::Nowhere));
}

#[test]
fn resolve_git_program_walks_the_injected_path() {
    let program = Some(FileMode { is_file: true, mode: 0o100755 });
    let data = Some(FileMode { is_file: true, mode: 0o100644 });
    let dir = Some(FileMode { is_file: false, mode: 0o040755 });

    let env = Env { path: bytes("/empty::/a:/b:/c"), ..Default::default() };
    assert_eq!(
        git_candidates(&env),
        paths(&["/empty/git", "/a/git", "/b/git", "/c/git"]),
        "an empty directory is skipped"
    );
    assert_eq!(resolve_git_program(&env, &[None, None, None, None]), None);
    assert_eq!(resolve_git_program(&env, &[None, data, dir, None]), None);
    assert_eq!(resolve_git_program(&env, &[None, data, program, program]), bytes("/b/git"));
    assert_eq!(resolve_git_program(&Env::default(), &[]), None, "no PATH at all finds no git");
}

// Values.

#[test]
fn path_values_expand_a_leading_tilde_against_home() {
    assert_eq!(load_ok("[scap]\n\troot = ~/nested\n").roots(), paths(&["/home/u/nested"]));
}

#[test]
fn a_path_value_is_expanded_only_at_its_head() {
    let home = Some(b"/home/u".as_slice());
    assert_eq!(interpolate_value(b"~/a", home), bytes("/home/u/a"));
    assert_eq!(interpolate_value(b"/a/~/b", home), bytes("/a/~/b"));
    assert_eq!(interpolate_value(b"a/b", home), bytes("a/b"));
    assert_eq!(interpolate_value(b"~/a", None), bytes("~/a"), "no home leaves it as it is");
    assert_eq!(interpolate_value(b"%(prefix)/a", home), bytes("%(prefix)/a"));
    assert_eq!(
        interpolate_value(b"%(prefix)/\xff", home).as_deref(),
        Some(b"%(prefix)/\xff".as_slice()),
        "what is no text keeps its bytes"
    );
    assert_eq!(interpolate_value(b"", home), None);
}

#[test]
fn path_values_expand_tilde_user_the_way_git_does() {
    // Every unix has a user called root; where they live is its own business.
    let snapshot = load_ok("[scap]\n\troot = ~root/src\n");
    let [root] = snapshot.roots() else {
        panic!("one root: {:?}", snapshot.roots());
    };
    assert_ne!(root, b"~root/src");
    assert!(root.starts_with(b"/") && root.ends_with(b"/src"), "{root:?}");
}

#[test]
fn a_value_is_the_path_it_spells_or_itself() {
    assert_eq!(path_or_spelling(b"~u/a", Some(b"/h/u/a".to_vec())), bytes("/h/u/a"));
    assert_eq!(path_or_spelling(b"~u/a", None), bytes("~u/a"));
    assert_eq!(path_or_spelling(b"", Some(b"/a".to_vec())), None);
}

#[test]
fn quoted_and_continued_values_match_git() {
    let text = "[scap]\n\troot = \"/quoted path/one\"\n\troot = /two\\\n/three\n";
    assert_eq!(load_ok(text).roots(), paths(&["/quoted path/one", "/two/three"]));
}

#[test]
fn user_is_read_and_trimmed() {
    assert_eq!(load_ok("[scap]\n\tuser = motemen\n").user(), Some("motemen"));
    assert_eq!(load_ok("[scap]\n\tuser = \"  motemen\\t\"\n").user(), Some("motemen"));
    assert_eq!(load_ok("").user(), None);
    assert_eq!(load_ok("[scap]\n\tuser = \" \"\n").user(), Some(""));
}

#[test]
fn complete_user_accepts_every_git_bool_spelling_including_a_valueless_key() {
    for (spelling, expected) in [
        ("completeUser = true", true),
        ("completeUser = yes", true),
        ("completeUser = on", true),
        ("completeUser = 1", true),
        ("completeUser = false", false),
        ("completeUser = no", false),
        ("completeUser = off", false),
        ("completeUser = 0", false),
        ("completeUser", true),
    ] {
        let text = format!("[scap]\n\t{spelling}\n");
        assert_eq!(load_ok(&text).complete_user(), expected, "spelling: {spelling}");
    }
    assert!(!load_ok("").complete_user(), "an absent key is false");

    for invalid in ["one", "zero", "nil", "sure", "1 k", "0x"] {
        let text = format!("[scap]\n\tcompleteUser = {invalid}\n");
        assert!(!load_ok(&text).complete_user(), "in process: {invalid}");
        assert!(!via_git(&text, &home_env()).complete_user(), "via git: {invalid}");
    }
    for spelling in ["0x1", "1k", "-2", "010", "+3", "1M", "1g"] {
        let text = format!("[scap]\n\tcompleteUser = {spelling}\n");
        assert!(load_ok(&text).complete_user(), "in process: {spelling}");
        assert!(via_git(&text, &home_env()).complete_user(), "via git: {spelling}");
    }
    for zero in ["0x0", "0k", "00"] {
        let text = format!("[scap]\n\tcompleteUser = {zero}\n");
        assert!(!load_ok(&text).complete_user(), "in process: {zero}");
    }
}

#[test]
fn boolean_of_separates_a_valueless_key_from_an_empty_one_and_takes_the_last() {
    let file = read_config(
        b"[scap]\n\tcompleteUser = true\n[other]\n\tflag = true\n\
          [scap]\n\tcompleteUser = false\n\tlistCache\n\tuser = x\n\
          [scap \"https://example.com/\"]\n\tcompleteUser = true\n",
    )
    .expect("parse");

    assert_eq!(
        boolean_of(&file, "scap", "completeUser"),
        Some(false),
        "the last plain occurrence wins, and a subsection is not a plain key"
    );
    assert_eq!(boolean_of(&file, "scap", "listCache"), Some(true), "a valueless key is true");
    assert_eq!(boolean_of(&file, "scap", "absent"), None);
    assert_eq!(boolean_of(&file, "other", "flag"), Some(true), "the section name is a parameter");

    let file = read_config(b"[scap]\n\tcompleteUser =\n").expect("parse");
    assert_eq!(
        boolean_of(&file, "scap", "completeUser"),
        Some(false),
        "an empty value is false, unlike a valueless key"
    );
}

#[test]
fn list_exclude_and_list_cache_are_read_from_flat_keys() {
    let snapshot = load_ok("[scap]\n\tlistExclude = a/b\n\tlistExclude = c\n\tlistCache = true\n");
    assert_eq!(snapshot.list_exclude(), ["a/b".to_owned(), "c".to_owned()]);
    assert!(snapshot.list_cache());
}

#[test]
fn scap_list_exclude_replaces_the_configured_patterns() {
    let text = "[scap]\n\tlistExclude = from-config\n";
    let env = Env { scap_list_exclude: bytes("a/b::c"), ..home_env() };
    assert_eq!(load_env(text, &env).list_exclude(), ["a/b".to_owned(), "c".to_owned()]);

    let empty = Env { scap_list_exclude: bytes(""), ..home_env() };
    assert_eq!(load_env(text, &empty).list_exclude(), ["from-config".to_owned()]);

    assert_eq!(load_ok(text).list_exclude(), ["from-config".to_owned()]);

    assert_eq!(via_git(text, &env).list_exclude(), ["a/b".to_owned(), "c".to_owned()]);
}

#[test]
fn list_exclude_folds_one_trailing_slash() {
    let text = "[scap]\n\tlistExclude = node_modules/\n\tlistExclude = /\n";
    assert_eq!(load_ok(text).list_exclude(), ["node_modules".to_owned()]);

    let via_env = Env { scap_list_exclude: bytes("node_modules/:/:keep"), ..home_env() };
    assert_eq!(
        load_env(text, &via_env).list_exclude(),
        ["node_modules".to_owned(), "keep".to_owned()]
    );

    let doubled = Env { scap_list_exclude: bytes("foo//"), ..home_env() };
    assert_eq!(load_env(text, &doubled).list_exclude(), ["foo/".to_owned()]);
}

#[test]
fn has_url_sections_and_url_scoped_roots_report_scap_subsections() {
    let plain = load_ok("[scap]\n\troot = /plain\n");
    assert!(!plain.has_url_sections());
    assert!(plain.url_scoped_roots().is_empty());

    let scoped = load_ok(
        "[scap]\n\troot = /plain\n\
         [scap \"https://example.com/\"]\n\troot = /custom\n\
         [scap \"https://other.example.com/\"]\n\troot = /other\n",
    );
    assert!(scoped.has_url_sections());
    assert_eq!(scoped.url_scoped_roots(), paths(&["/custom", "/other"]));
    assert_eq!(scoped.roots(), paths(&["/plain"]), "a subsection root is not a plain root");
}

#[test]
fn backend_and_reason_describe_the_in_process_path() {
    let plain = load_ok("[scap]\n\troot = /plain\n");
    assert_eq!(plain.backend(), Backend::InProcess);
    assert_eq!(plain.reason(), Reason::InProcess);
    assert_eq!(plain.backend().text(), "in_process");

    let scoped = load_ok("[scap \"https://example.com/\"]\n\troot = /custom\n");
    assert_eq!(scoped.backend(), Backend::InProcess, "url sections alone keep the snapshot local");
    assert_eq!(scoped.reason(), Reason::UrlSections);
    assert_eq!(scoped.reason().text(), "url_sections");
}

// When git has to be asked.

#[test]
fn needs_git_backend_fires_once_per_trigger() {
    let base = home_env();

    assert_eq!(needs_git_backend(&base, 0, false), None, "the common case stays in process");
    assert_eq!(needs_git_backend(&base, 1, false), None, "exactly one system file is unambiguous");

    let env = Env { scap_config_backend: bytes("git"), ..base.clone() };
    assert_eq!(needs_git_backend(&env, 0, false), Some(Reason::EnvOverride));

    let env = Env { scap_config_backend: bytes("gix"), ..base.clone() };
    assert_eq!(needs_git_backend(&env, 0, false), None, "only `git` selects git");

    let env = Env { git_config_count: bytes("1"), ..base.clone() };
    assert_eq!(needs_git_backend(&env, 0, false), Some(Reason::GitConfigCount));

    let env = Env { git_config_parameters: bytes("'scap.root=/x'"), ..base.clone() };
    assert_eq!(needs_git_backend(&env, 0, false), Some(Reason::GitConfigParameters));

    let env = Env { git_config_count: bytes("0"), ..base.clone() };
    assert_eq!(needs_git_backend(&env, 0, false), None, "a count of zero adds no keys");

    let env = Env { git_config_count: bytes(""), ..base.clone() };
    assert_eq!(needs_git_backend(&env, 0, false), None);

    for unparseable in ["abc", "-1"] {
        let env = Env { git_config_count: bytes(unparseable), ..base.clone() };
        assert_eq!(
            needs_git_backend(&env, 0, false),
            Some(Reason::GitConfigCount),
            "git would die on {unparseable:?}, so git must be the one to say so"
        );
    }

    assert_eq!(needs_git_backend(&base, 2, false), Some(Reason::SystemProbeAmbiguous));
    assert_eq!(needs_git_backend(&base, 0, true), Some(Reason::IncludeifUnevaluated));
}

#[test]
fn an_unevaluable_include_if_routes_the_snapshot_to_git() {
    for condition in ["onbranch:main", "hasconfig:remote.*.url:https://example.com/**"] {
        let text = format!(
            "[scap]\n\troot = /plain\n[includeIf \"{condition}\"]\n\tpath = extra.gitconfig\n"
        );
        assert!(
            matches!(
                load_with(&text, &home_env()),
                LoadStep::AskGit(Reason::IncludeifUnevaluated)
            ),
            "condition: {condition}"
        );
        let snapshot = from_listing(
            &listing(&[("scap.root", Some("/plain"))]),
            &home_env(),
            Reason::IncludeifUnevaluated,
        );
        assert_eq!(snapshot.backend(), Backend::Git);
        assert_eq!(snapshot.reason(), Reason::IncludeifUnevaluated);
        assert_eq!(snapshot.roots(), paths(&["/plain"]));
    }
    let text = "[includeIf \"gitdir:/x/\"]\n\tpath = extra.gitconfig\n";
    assert!(matches!(load_with(text, &home_env()), LoadStep::Loaded(_)));
}

#[test]
fn an_ambiguous_system_probe_routes_the_snapshot_to_git() {
    let env = home_env();
    assert!(matches!(load(&env, Stage::Start), LoadStep::Enumerate));
    assert!(matches!(load(&env, Stage::Listed { system_probe_matches: 1 }), LoadStep::Parse));
    assert!(matches!(
        load(&env, Stage::Listed { system_probe_matches: 2 }),
        LoadStep::AskGit(Reason::SystemProbeAmbiguous)
    ));
    assert_eq!(Reason::SystemProbeAmbiguous.text(), "system_probe_ambiguous");
}

#[test]
fn what_asks_for_git_early_still_asks_when_more_is_known() {
    let env = Env { git_config_count: bytes("2"), ..home_env() };
    assert!(matches!(load(&env, Stage::Start), LoadStep::AskGit(Reason::GitConfigCount)));
    assert!(matches!(
        load(&env, Stage::Listed { system_probe_matches: 3 }),
        LoadStep::AskGit(Reason::GitConfigCount)
    ));
    let sections = read_config(b"[includeIf \"onbranch:x\"]\n\tpath = y\n").expect("parse");
    assert!(matches!(
        load(&env, Stage::Parsed { system_probe_matches: 3, sections: &sections }),
        LoadStep::AskGit(Reason::GitConfigCount)
    ));
}

#[test]
fn a_trigger_without_git_on_path_is_fatal_rather_than_a_silent_fallback() {
    let env =
        Env { scap_config_backend: bytes("git"), path: bytes("/empty-bin"), ..home_env() };
    let reason = match load(&env, Stage::Start) {
        LoadStep::AskGit(reason) => reason,
        other => panic!("git was not asked for: {other:?}"),
    };
    let err = required_git(resolve_git_program(&env, &[None]), reason_text(reason))
        .expect_err("no git on PATH must not fall back");
    assert!(
        matches!(err, ConfigError::GitRequired { reason } if reason.contains("SCAP_CONFIG_BACKEND")),
        "the error must name the trigger"
    );
    assert_eq!(required_git(bytes("/b/git"), "x").expect("found"), b"/b/git");
}

#[test]
fn the_git_backend_reproduces_the_in_process_snapshot() {
    let text = "[scap]\n\troot = /a\n\troot = ~/b\n\tuser = zchee\n\tcompleteUser\n\
         \tlistExclude = x/y\n\tlistCache = yes\n\
         [scap \"https://example.com/\"]\n\troot = /custom\n";
    let in_process = load_ok(text);
    let via_git = via_git(text, &home_env());

    assert_eq!(via_git.backend(), Backend::Git);
    assert_eq!(via_git.roots(), in_process.roots());
    assert_eq!(via_git.url_scoped_roots(), in_process.url_scoped_roots());
    assert_eq!(via_git.user(), in_process.user());
    assert_eq!(via_git.complete_user(), in_process.complete_user());
    assert_eq!(via_git.list_exclude(), in_process.list_exclude());
    assert_eq!(via_git.list_cache(), in_process.list_cache());
    assert_eq!(in_process.roots(), paths(&["/a", "/home/u/b"]));
}

// Roots.

#[test]
fn resolve_roots_reverses_multi_root_and_dedups() {
    let snapshot = load_ok("[scap]\n\troot = /a\n\troot = /b\n\troot = /c\n\troot = /a\n");
    let roots = resolve_roots(&snapshot, false, &[]).expect("resolve");
    assert_eq!(roots, paths(&["/a", "/c", "/b"]));
}

#[test]
fn resolve_roots_falls_back_to_home_scap() {
    let roots = resolve_roots(&load_ok(""), false, &[]).expect("resolve");
    assert_eq!(roots, paths(&["/home/u/scap"]));

    let homeless = load_env("", &Env::default());
    let err = resolve_roots(&homeless, false, &[]).expect_err("no home");
    assert!(matches!(err, ConfigError::NoHomeDir));
    assert_eq!(err.message(), "could not determine home directory");
}

#[test]
fn resolve_roots_uses_scap_root_env_when_set() {
    let env = Env { scap_root: bytes("/p/one:/p/two"), ..home_env() };
    let snapshot = load_env("[scap]\n\troot = /ignored\n", &env);
    assert_eq!(resolve_roots(&snapshot, false, &[]).expect("ok"), paths(&["/p/one", "/p/two"]));
    assert_eq!(resolve_roots(&snapshot, true, &[]).expect("ok"), paths(&["/p/one", "/p/two"]));
}

#[test]
fn resolve_roots_all_appends_url_scoped_roots() {
    let snapshot = load_ok(
        "[scap]\n\troot = /default\n[scap \"https://example.com/\"]\n\troot = /custom\n",
    );
    assert_eq!(resolve_roots(&snapshot, false, &[]).expect("ok"), paths(&["/default"]));
    assert_eq!(resolve_roots(&snapshot, true, &[]).expect("ok"), paths(&["/default", "/custom"]));
}

#[test]
fn roots_that_lie_in_one_place_are_one_root() {
    let snapshot = load_ok("[scap]\n\troot = /b\n\troot = /lnk/x/../a\n");
    assert_eq!(snapshot.root_candidates(false).expect("ok"), paths(&["/lnk/a", "/b"]));
    assert_eq!(
        resolve_roots(&snapshot, false, &[bytes("/b"), None]).expect("ok"),
        paths(&["/b"])
    );
}

#[test]
fn root_for_url_returns_the_last_plain_root_raw_when_no_url_section_exists() {
    let snapshot = load_ok("[scap]\n\troot = /first\n\troot = /t/lnk/last\n");
    let canonical = [bytes("/t/real/last"), None];
    let url = "https://github.com/x/y";
    assert!(!snapshot.needs_urlmatch(url));
    assert_eq!(root_for_url(&snapshot, url, None, &canonical).expect("root"), b"/t/lnk/last");
    assert_eq!(
        resolve_roots(&snapshot, false, &canonical).expect("resolve"),
        paths(&["/t/real/last", "/first"])
    );
}

#[test]
fn root_for_url_uses_scap_root_env_first() {
    let env = Env { scap_root: bytes("/env-first:/env-second"), ..home_env() };
    let snapshot = load_env("[scap]\n\troot = /default\n", &env);
    assert_eq!(
        root_for_url(&snapshot, "https://github.com/foo/bar", None, &[]).expect("root"),
        b"/env-first"
    );
}

#[test]
fn root_for_url_skips_urlmatch_for_codecommit_inputs() {
    let snapshot = load_ok(
        "[scap]\n\troot = /first\n\troot = /t/lnk/last\n\
         [scap \"codecommit\"]\n\troot = /should-be-ignored\n",
    );
    let canonical = [bytes("/t/real/last"), None];
    for url in ["codecommit://us-east-1/codecommit/my-repo", "codecommit::us-east-1://my-repo"] {
        assert!(!snapshot.needs_urlmatch(url), "{url}");
        let got = root_for_url(&snapshot, url, None, &canonical).expect("root");
        assert_eq!(got, b"/t/real/last", "{url}");
        assert_eq!(got, resolve_roots(&snapshot, false, &canonical).expect("resolve")[0], "{url}");
    }
    let url = "https://github.com/x/y";
    assert!(snapshot.needs_urlmatch(url));
    assert_eq!(
        root_for_url(&snapshot, url, Some(b"/t/lnk/last"), &canonical).expect("root"),
        b"/t/lnk/last"
    );
}

#[test]
fn root_for_url_delegates_to_urlmatch_when_a_url_section_is_visible() {
    let snapshot = load_ok(
        "[scap]\n\troot = /default\n\
         [scap \"https://special.example.com/\"]\n\troot = /special\n",
    );
    let url = "https://special.example.com/foo/bar";
    assert!(snapshot.needs_urlmatch(url));
    assert_eq!(
        urlmatch_args(url),
        ["config", "--path", "--get-urlmatch", "scap.root", "https://special.example.com/foo/bar"]
    );
    assert_eq!(root_for_url(&snapshot, url, Some(b"/special"), &[]).expect("root"), b"/special");
    assert_eq!(root_for_url(&snapshot, url, None, &[]).expect("root"), b"/default");
}

#[test]
fn root_for_url_falls_back_to_the_home_root_when_nothing_is_configured() {
    let snapshot = load_ok("");
    assert_eq!(
        root_for_url(&snapshot, "https://github.com/x/y", None, &[]).expect("root"),
        b"/home/u/scap"
    );
}

#[test]
fn an_answer_that_was_not_asked_for_does_not_count() {
    let snapshot = load_ok("[scap]\n\troot = /plain\n");
    let url = "https://one.example.com/o/n";
    assert_eq!(root_for_url(&snapshot, url, Some(b"/other"), &[]).expect("root"), b"/plain");
}

#[test]
fn git_answers_with_a_path_or_with_nothing() {
    assert_eq!(urlmatch_outcome(Some(0), b"/r-one\n", b"").expect("ok"), bytes("/r-one"));
    assert_eq!(urlmatch_outcome(Some(0), b"\n", b"").expect("ok"), None);
    assert_eq!(urlmatch_outcome(Some(1), b"ignored", b"").expect("ok"), None);
    assert!(matches!(urlmatch_outcome(Some(0), b"\xff", b""), Err(ConfigError::InvalidUtf8)));
    let err = urlmatch_outcome(Some(128), b"", b"fatal: x\n").expect_err("failed");
    assert_eq!(err.message(), "git config \"scap.root\" failed (status 128): fatal: x\n");
    let err = urlmatch_outcome(None, b"", b"").expect_err("killed");
    assert_eq!(err.message(), "git config \"scap.root\" failed (status -1): ");
}

#[test]
fn urlmatch_spawns_once_per_distinct_url() {
    let urls = [
        ("https://one.example.com/o/n", Some("/r-one")),
        ("https://two.example.com/o/n", Some("/r-two")),
        ("https://three.example.com/o/n", None),
    ];
    let mut memo = UrlmatchMemo::default();
    let mut asked = 0;
    for _ in 0..3 {
        for (url, expected) in urls {
            let answer = match memo.recall(url) {
                Some(answer) => answer,
                None => {
                    asked += 1;
                    let answer = expected.and_then(bytes);
                    memo.learn(url, &answer);
                    answer
                }
            };
            assert_eq!(answer, expected.and_then(bytes), "{url}");
        }
    }
    assert_eq!(asked, urls.len(), "one question per distinct URL, not per lookup");
    memo.learn(urls[0].0, &bytes("/other"));
    assert_eq!(memo.recall(urls[0].0), Some(bytes("/r-one")), "what is remembered stands");
}

#[test]
fn root_for_url_never_spawns_git_without_url_sections() {
    let snapshot = load_ok("[scap]\n\troot = /first\n\troot = /plain-last\n");
    for url in ["https://one.example.com/o/n", "https://two.example.com/o/n"] {
        assert!(!snapshot.needs_urlmatch(url));
        assert_eq!(root_for_url(&snapshot, url, None, &[]).expect("root"), b"/plain-last", "{url}");
    }
}

#[test]
fn rule_d_without_git_on_path_is_fatal_rather_than_a_silent_fallback() {
    let env = Env { path: bytes("/empty-bin"), ..home_env() };
    let snapshot = load_env(
        "[scap]\n\troot = /plain\n[scap \"https://one.example.com/\"]\n\troot = /r-one\n",
        &env,
    );
    assert_eq!(snapshot.backend(), Backend::InProcess);
    assert_eq!(snapshot.reason(), Reason::UrlSections);
    assert_eq!(snapshot.reason().text(), "url_sections");

    assert!(snapshot.needs_urlmatch("https://one.example.com/o/n"));
    let err = required_git(resolve_git_program(&env, &[None]), urlmatch_reason())
        .expect_err("it cannot be answered without git");
    assert!(matches!(err, ConfigError::GitRequired { reason } if reason.contains("url-scoped")));
    assert_eq!(
        err.message(),
        "`git` is required (url-scoped [scap \"<url>\"] sections require \
         `git config --get-urlmatch`) but no `git` was found on PATH"
    );
}

#[test]
fn env_from_process_sees_the_default_system_probe_list() {
    let env = Env::from_process(Env::default());
    assert_eq!(env.system_probe_candidates, default_system_candidates());
}

#[test]
fn an_empty_variable_is_unset_where_git_takes_it_for_unset() {
    let read = Env {
        home: bytes(""),
        xdg_config_home: bytes(""),
        git_config_global: bytes(""),
        git_config_parameters: bytes(""),
        git_dir: bytes(""),
        git_ceiling_directories: bytes(""),
        ..Default::default()
    };
    let env = Env::from_process(read);
    assert_eq!(env.home, bytes(""));
    assert_eq!(env.git_config_global, bytes(""));
    assert_eq!(env.xdg_config_home, None);
    assert_eq!(env.git_config_parameters, None);
    assert_eq!(env.git_dir, None);
    assert_eq!(env.git_ceiling_directories, None);
}

#[test]
fn user_and_complete_user_read_the_process_snapshot() {
    let snapshot = load_ok("[scap]\n\tuser = x\n\tcompleteUser = yes\n");
    assert_eq!(user(&snapshot).expect("user"), snapshot.user().map(str::to_owned));
    assert_eq!(complete_user(&snapshot).expect("completeUser"), snapshot.complete_user());
    assert_eq!(user(&snapshot).expect("user"), Some("x".to_owned()));
    assert_eq!(user(&load_ok("")).expect("user"), None);
}

// Git's listing.

#[test]
fn entries_pairs_origins_with_keys_and_keeps_valueless_keys() {
    let bytes = listing(&[
        ("scap.root", Some("/a")),
        ("scap.completeuser", None),
        ("scap.https://example.com/.root", Some("/custom")),
    ]);

    let parsed = entries(&bytes);

    assert_eq!(parsed.len(), 3);
    assert_eq!(parsed[0].0, "scap.root");
    assert_eq!(parsed[0].1, Some(b"/a".to_vec()));
    assert_eq!(parsed[1].0, "scap.completeuser");
    assert!(parsed[1].1.is_none(), "a valueless key carries no newline");
    assert_eq!(parsed[2].0, "scap.https://example.com/.root");
}

#[test]
fn entries_tolerates_an_empty_listing_and_a_trailing_field() {
    assert!(entries(b"").is_empty());
    assert!(entries(b"file:/x\0").is_empty(), "an unpaired origin yields nothing");
}

#[test]
fn a_value_may_hold_line_feeds() {
    let parsed = entries(&listing(&[("a.b", Some("one\ntwo")), ("a.c", Some(""))]));
    assert_eq!(parsed[0].1, Some(b"one\ntwo".to_vec()));
    assert_eq!(parsed[1].1, Some(Vec::new()));
}

#[test]
fn both_backends_share_one_truthiness_helper() {
    assert!(git_boolean(None), "a valueless key is true");
    for truthy in ["1", "true", "TRUE", "yes", "on", "42", "-1"] {
        assert!(git_boolean(Some(truthy.as_bytes())), "value: {truthy}");
    }
    for falsey in ["", "0", "false", "FALSE", "no", "off"] {
        assert!(!git_boolean(Some(falsey.as_bytes())), "value: {falsey}");
    }
    for invalid in ["one", "zero", "nil", "sure", "  true  ", "1 k", "0x", "1z"] {
        assert!(!git_boolean(Some(invalid.as_bytes())), "an invalid boolean is false: {invalid}");
    }
    for spelling in ["0x1", "1k", "1K", "1m", "1g", "010", "-2", "+3", " 7"] {
        assert!(git_boolean(Some(spelling.as_bytes())), "a true integer: {spelling}");
    }
    for zero in ["0x0", "0k", "00", "-0"] {
        assert!(!git_boolean(Some(zero.as_bytes())), "a zero integer is false: {zero}");
    }
}

#[test]
fn an_integer_is_read_with_its_base_and_unit() {
    for (text, value) in [
        ("0", Some(0)),
        ("010", Some(8)),
        ("0x1F", Some(31)),
        ("-0x10", Some(-16)),
        ("1k", Some(1024)),
        ("2M", Some(2 * 1024 * 1024)),
        ("-1g", Some(-1024 * 1024 * 1024)),
        ("9223372036854775807", Some(i64::MAX)),
        ("9223372036854775808", None),
        ("8388608g", Some(1 << 53)),
        ("9007199254740992k", None),
        ("", None),
        ("k", None),
        ("1kk", None),
        ("08", None),
        ("0k", Some(0)),
        ("-0g", Some(0)),
        ("017m", Some(15 * 1024 * 1024)),
        ("0x", None),
        ("0xk", None),
    ] {
        assert_eq!(parse_git_int(text.as_bytes()), value, "{text}");
    }
}

#[test]
fn a_variable_is_true_unless_it_spells_a_falsehood() {
    for falsehood in ["", "0", "false", "No", "OFF"] {
        assert!(!truthy(Some(falsehood.as_bytes())), "{falsehood}");
    }
    for truth in ["1", "true", "anything", " 0"] {
        assert!(truthy(Some(truth.as_bytes())), "{truth}");
    }
    assert!(truthy(Some(b"\xff")));
    assert!(!truthy(None));
}

#[test]
fn from_listing_splits_plain_keys_from_url_scoped_roots() {
    let bytes = listing(&[
        ("scap.root", Some("/a")),
        ("scap.root", Some("/b")),
        ("scap.user", Some("  zchee  ")),
        ("scap.completeuser", None),
        ("scap.listexclude", Some("x/y")),
        ("scap.listcache", Some("true")),
        ("scap.https://example.com/.root", Some("/custom")),
        ("scap.https://example.com/.other", Some("ignored")),
        ("core.editor", Some("vi")),
    ]);

    let snapshot = from_listing(&bytes, &Env::default(), Reason::EnvOverride);

    assert_eq!(snapshot.roots(), paths(&["/a", "/b"]));
    assert_eq!(snapshot.url_scoped_roots(), paths(&["/custom"]));
    assert_eq!(snapshot.user(), Some("zchee"));
    assert!(snapshot.complete_user());
    assert_eq!(snapshot.list_exclude(), ["x/y".to_owned()]);
    assert!(snapshot.list_cache());
    assert_eq!(snapshot.backend(), Backend::Git);
    assert_eq!(snapshot.reason(), Reason::EnvOverride);
}

#[test]
fn git_lists_the_settings_or_says_why_not() {
    assert_eq!(listing_args(), ["config", "--list", "-z", "--show-origin"]);
    assert_eq!(listing_outcome(Some(0), b"x\0".to_vec(), b"").expect("ok"), b"x\0");
    assert_eq!(listing_outcome(Some(1), b"x\0".to_vec(), b"").expect("ok"), b"");
    let err = listing_outcome(Some(3), Vec::new(), b"bad\xff").expect_err("failed");
    assert_eq!(err.message(), "git config \"--list\" failed (status 3): bad\u{fffd}");
}

#[test]
fn every_failure_says_what_it_is() {
    let spawn = ConfigError::GitSpawn("no such file".to_owned());
    assert_eq!(spawn.message(), "failed to invoke `git`: no such file");
    assert_eq!(ConfigError::InvalidUtf8.message(), "invalid utf-8 in git config output");
    let parse =
        ConfigError::Parse { path: b"/home/u/.gitconfig".to_vec(), source: "line 3".to_owned() };
    assert_eq!(
        parse.message(),
        "could not parse the git configuration reachable from /home/u/.gitconfig: line 3"
    );
}

#[test]
fn a_file_that_is_not_a_configuration_has_no_sections() {
    assert!(read_config(b"[scap\n").is_none());
    assert!(read_config(b"").expect("an empty file").is_empty());
    let sections = read_config(b"[a \"b\"]\n\tc = d\n\te\n").expect("a file");
    assert_eq!(sections.len(), 1);
    assert_eq!(sections[0].name, "a");
    assert_eq!(sections[0].subsection, bytes("b"));
    assert_eq!(sections[0].entries[0].name, "c");
    assert_eq!(sections[0].entries[0].value, b"d");
    assert!(!sections[0].entries[0].implicit);
    assert_eq!(sections[0].entries[1].name, "e");
    assert!(sections[0].entries[1].implicit);
}

#[test]
fn reason_text_names_the_trigger_in_the_git_required_error() {
    assert!(reason_text(Reason::EnvOverride).contains("SCAP_CONFIG_BACKEND"));
    assert!(reason_text(Reason::GitConfigCount).contains("GIT_CONFIG_COUNT"));
    assert!(reason_text(Reason::GitConfigParameters).contains("GIT_CONFIG_PARAMETERS"));
    assert!(reason_text(Reason::SystemProbeAmbiguous).contains("probe"));
    assert!(reason_text(Reason::IncludeifUnevaluated).contains("includeIf"));
}

#[test]
fn apply_env_mirrors_the_view_onto_the_child() {
    let env = Env {
        home: bytes("/t"),
        git_config_global: bytes("/t/gitconfig"),
        git_config_nosystem: bytes("1"),
        path: bytes("/bin"),
        ..Default::default()
    };
    let set = apply_env(&env);
    let of = |name: &str| set.iter().find(|(n, _)| n == name).map(|(_, v)| v.clone());
    assert_eq!(of("HOME"), Some(bytes("/t")));
    assert_eq!(of("GIT_CONFIG_GLOBAL"), Some(bytes("/t/gitconfig")));
    assert_eq!(of("GIT_CONFIG_NOSYSTEM"), Some(bytes("1")));
    assert_eq!(of("PATH"), Some(bytes("/bin")));
    for unset in [
        "XDG_CONFIG_HOME",
        "GIT_CONFIG_SYSTEM",
        "GIT_CONFIG_COUNT",
        "GIT_CONFIG_PARAMETERS",
        "GIT_DIR",
        "GIT_CEILING_DIRECTORIES",
    ] {
        assert_eq!(of(unset), Some(None), "{unset}");
    }
    assert_eq!(apply_env(&Env::default()).iter().find(|(n, _)| n == "PATH"), None);
}

#[test]
fn root_for_url_matches_git_for_every_url_section_kind() {
    let snapshot = load_ok(
        "[scap]\n\troot = /plain-first\n\troot = /plain-last\n\
         [scap \"https://exact.example.com/\"]\n\troot = /r-exact\n\
         [scap \"https://pathy.example.com/team\"]\n\troot = /r-path-short\n\
         [scap \"https://pathy.example.com/team/deep\"]\n\troot = /r-path-long\n\
         [scap \"https://*.wild.example.com/\"]\n\troot = /r-wild\n\
         [scap \"ssh://git@sshy.example.com/\"]\n\troot = /r-scheme-user\n\
         [scap \"https://user@auth.example.com/\"]\n\troot = /r-user\n",
    );
    for (url, expected) in [
        ("https://exact.example.com/o/n", "/r-exact"),
        ("https://pathy.example.com/team/repo", "/r-path-short"),
        ("https://pathy.example.com/team/deep", "/r-path-long"),
        ("https://foo.wild.example.com/o/n", "/r-wild"),
        ("ssh://git@sshy.example.com/o/n", "/r-scheme-user"),
        ("https://user@auth.example.com/o/n", "/r-user"),
        ("https://sshy.example.com/o/n", "/plain-last"),
        ("https://auth.example.com/o/n", "/plain-last"),
        ("https://nomatch.example.com/o/n", "/plain-last"),
    ] {
        assert!(snapshot.needs_urlmatch(url), "{url}");
        let printed = format!("{expected}\n");
        let answer = urlmatch_outcome(Some(0), printed.as_bytes(), b"").expect("git answers");
        let root = root_for_url(&snapshot, url, answer.as_deref(), &[]).expect("root");
        assert_eq!(root, expected.as_bytes(), "{url}");
    }
}
