use scap::path::rel_path;
use scap::url::{
    finalize_codecommit, from_input, from_parts, from_parsed, is_codecommit_input, needs_region,
    normalize_to_parseable, parse_codecommit, region_from_output, resolve_codecommit_region,
    NormalizedKind, UrlError, UrlParts, UrlScheme,
};

struct Case {
    input: &'static str,
    scap_user: Option<&'static str>,
    complete_user: bool,
    want_host: &'static str,
    want_owner: &'static str,
    want_name: &'static str,
}

fn run_cases(cases: &[(&'static str, Case)]) {
    for (name, c) in cases {
        let got = from_input(c.input, c.scap_user, c.complete_user, None)
            .unwrap_or_else(|e| panic!("{name}: unexpected error: {}", e.message()));
        assert_eq!(got.host, c.want_host, "{name}: host");
        assert_eq!(got.owner, c.want_owner, "{name}: owner");
        assert_eq!(got.name, c.want_name, "{name}: name");
    }
}

#[test]
fn parses_github_url_shapes() {
    let cases: &[(&str, Case)] = &[
        (
            "github_https",
            Case {
                input: "https://github.com/motemen/ghq",
                scap_user: None,
                complete_user: false,
                want_host: "github.com",
                want_owner: "motemen",
                want_name: "ghq",
            },
        ),
        (
            "github_https_dot_git",
            Case {
                input: "https://github.com/motemen/ghq.git",
                scap_user: None,
                complete_user: false,
                want_host: "github.com",
                want_owner: "motemen",
                want_name: "ghq",
            },
        ),
        (
            "github_https_trailing_slash",
            Case {
                input: "https://github.com/motemen/ghq/",
                scap_user: None,
                complete_user: false,
                want_host: "github.com",
                want_owner: "motemen",
                want_name: "ghq",
            },
        ),
        (
            "github_http_plain",
            Case {
                input: "http://github.com/motemen/ghq",
                scap_user: None,
                complete_user: false,
                want_host: "github.com",
                want_owner: "motemen",
                want_name: "ghq",
            },
        ),
        (
            "github_ssh_explicit",
            Case {
                input: "ssh://git@github.com/motemen/ghq.git",
                scap_user: None,
                complete_user: false,
                want_host: "github.com",
                want_owner: "motemen",
                want_name: "ghq",
            },
        ),
        (
            "github_ssh_no_user",
            Case {
                input: "ssh://github.com/motemen/ghq.git",
                scap_user: None,
                complete_user: false,
                want_host: "github.com",
                want_owner: "motemen",
                want_name: "ghq",
            },
        ),
        (
            "github_git_protocol",
            Case {
                input: "git://github.com/motemen/ghq.git",
                scap_user: None,
                complete_user: false,
                want_host: "github.com",
                want_owner: "motemen",
                want_name: "ghq",
            },
        ),
        (
            "github_scp",
            Case {
                input: "git@github.com:motemen/pusheen-explorer.git",
                scap_user: None,
                complete_user: false,
                want_host: "github.com",
                want_owner: "motemen",
                want_name: "pusheen-explorer",
            },
        ),
        (
            "github_scp_root_slash",
            Case {
                input: "git@github.com:/motemen/pusheen-explorer.git",
                scap_user: None,
                complete_user: false,
                want_host: "github.com",
                want_owner: "motemen",
                want_name: "pusheen-explorer",
            },
        ),
        (
            "github_scp_no_user",
            Case {
                input: "github.com:motemen/pusheen-explorer.git",
                scap_user: None,
                complete_user: false,
                want_host: "github.com",
                want_owner: "motemen",
                want_name: "pusheen-explorer",
            },
        ),
        (
            "github_https_with_user_in_url",
            Case {
                input: "https://octocat@github.com/octo/repo",
                scap_user: None,
                complete_user: false,
                want_host: "github.com",
                want_owner: "octo",
                want_name: "repo",
            },
        ),
        (
            "github_ssh_explicit_no_dot_git",
            Case {
                input: "ssh://git@github.com/motemen/ghq",
                scap_user: None,
                complete_user: false,
                want_host: "github.com",
                want_owner: "motemen",
                want_name: "ghq",
            },
        ),
        (
            "github_scp_dash_name",
            Case {
                input: "git@github.com:zchee/scap-cli.git",
                scap_user: None,
                complete_user: false,
                want_host: "github.com",
                want_owner: "zchee",
                want_name: "scap-cli",
            },
        ),
        (
            "github_https_underscore_name",
            Case {
                input: "https://github.com/zchee/foo_bar.git",
                scap_user: None,
                complete_user: false,
                want_host: "github.com",
                want_owner: "zchee",
                want_name: "foo_bar",
            },
        ),
        (
            "github_ssh_plus_git",
            Case {
                input: "ssh+git://git@github.com/motemen/ghq.git",
                scap_user: None,
                complete_user: false,
                want_host: "github.com",
                want_owner: "motemen",
                want_name: "ghq",
            },
        ),
        (
            "github_git_plus_ssh",
            Case {
                input: "git+ssh://git@github.com/motemen/ghq.git",
                scap_user: None,
                complete_user: false,
                want_host: "github.com",
                want_owner: "motemen",
                want_name: "ghq",
            },
        ),
    ];
    run_cases(cases);
}

#[test]
fn parses_bare_inputs_and_ghq_user_fillin() {
    let cases: &[(&str, Case)] = &[
        (
            "two_segment_default_github",
            Case {
                input: "motemen/ghq",
                scap_user: None,
                complete_user: false,
                want_host: "github.com",
                want_owner: "motemen",
                want_name: "ghq",
            },
        ),
        (
            "one_segment_complete_false_repeats_name",
            Case {
                input: "peco",
                scap_user: None,
                complete_user: false,
                want_host: "github.com",
                want_owner: "peco",
                want_name: "peco",
            },
        ),
        (
            "one_segment_complete_true_uses_ghq_user",
            Case {
                input: "same-name-ghq",
                scap_user: Some("ghq-test"),
                complete_user: true,
                want_host: "github.com",
                want_owner: "ghq-test",
                want_name: "same-name-ghq",
            },
        ),
        (
            "host_bare_three_segments",
            Case {
                input: "github.com/motemen/gore",
                scap_user: None,
                complete_user: false,
                want_host: "github.com",
                want_owner: "motemen",
                want_name: "gore",
            },
        ),
        (
            "host_bare_golang_x",
            Case {
                input: "golang.org/x/crypto",
                scap_user: None,
                complete_user: false,
                want_host: "golang.org",
                want_owner: "x",
                want_name: "crypto",
            },
        ),
    ];
    run_cases(cases);
}

#[test]
fn parses_self_hosted_and_other_hosts() {
    let cases: &[(&str, Case)] = &[
        (
            "ghe_https",
            Case {
                input: "https://ghe.example.com/team/proj",
                scap_user: None,
                complete_user: false,
                want_host: "ghe.example.com",
                want_owner: "team",
                want_name: "proj",
            },
        ),
        (
            "ghe_https_with_user",
            Case {
                input: "https://motemen@ghe.example.com/motemen/pusheen-explorer",
                scap_user: None,
                complete_user: false,
                want_host: "ghe.example.com",
                want_owner: "motemen",
                want_name: "pusheen-explorer",
            },
        ),
        (
            "bitbucket_https",
            Case {
                input: "https://bitbucket.org/zchee/scap",
                scap_user: None,
                complete_user: false,
                want_host: "bitbucket.org",
                want_owner: "zchee",
                want_name: "scap",
            },
        ),
        (
            "bitbucket_with_port",
            Case {
                input: "https://bitbucket.local:8888/motemen/ghq.git",
                scap_user: None,
                complete_user: false,
                want_host: "bitbucket.local",
                want_owner: "motemen",
                want_name: "ghq",
            },
        ),
        (
            "gitlab_https",
            Case {
                input: "https://gitlab.com/group/subgroup/proj",
                scap_user: None,
                complete_user: false,
                want_host: "gitlab.com",
                want_owner: "group/subgroup",
                want_name: "proj",
            },
        ),
        (
            "gitlab_ssh",
            Case {
                input: "git@gitlab.com:group/subgroup/proj.git",
                scap_user: None,
                complete_user: false,
                want_host: "gitlab.com",
                want_owner: "group/subgroup",
                want_name: "proj",
            },
        ),
        (
            "stash_ssh",
            Case {
                input: "ssh://git@stash.com/scm/motemen/ghq.git",
                scap_user: None,
                complete_user: false,
                want_host: "stash.com",
                want_owner: "scm/motemen",
                want_name: "ghq",
            },
        ),
        (
            "assembla_git",
            Case {
                input: "https://git.assembla.com/zchee/ghq.git",
                scap_user: None,
                complete_user: false,
                want_host: "git.assembla.com",
                want_owner: "zchee",
                want_name: "ghq",
            },
        ),
    ];
    run_cases(cases);
}

#[test]
fn lowercases_host_component() {
    let cases: &[(&str, Case)] = &[
        (
            "uppercase_host_https",
            Case {
                input: "https://GitHub.com/Foo/bar",
                scap_user: None,
                complete_user: false,
                want_host: "github.com",
                want_owner: "Foo",
                want_name: "bar",
            },
        ),
        (
            "mixed_case_ssh",
            Case {
                input: "ssh://git@GHE.Example.COM/team/proj",
                scap_user: None,
                complete_user: false,
                want_host: "ghe.example.com",
                want_owner: "team",
                want_name: "proj",
            },
        ),
        (
            "uppercase_scp",
            Case {
                input: "git@GitHub.com:Foo/Bar.git",
                scap_user: None,
                complete_user: false,
                want_host: "github.com",
                want_owner: "Foo",
                want_name: "Bar",
            },
        ),
    ];
    run_cases(cases);
}

#[test]
fn parses_subversion_and_sourceforge_shapes() {
    let cases: &[(&str, Case)] = &[
        (
            "svn_sourceforge",
            Case {
                input: "http://svn.code.sf.net/p/ghq/code/trunk",
                scap_user: None,
                complete_user: false,
                want_host: "svn.code.sf.net",
                want_owner: "p/ghq/code",
                want_name: "trunk",
            },
        ),
        (
            "git_sourceforge",
            Case {
                input: "http://git.code.sf.net/p/ghq/code",
                scap_user: None,
                complete_user: false,
                want_host: "git.code.sf.net",
                want_owner: "p/ghq",
                want_name: "code",
            },
        ),
        (
            "svn_assembla",
            Case {
                input: "https://subversion.assembla.com/svn/ghq/",
                scap_user: None,
                complete_user: false,
                want_host: "subversion.assembla.com",
                want_owner: "svn",
                want_name: "ghq",
            },
        ),
    ];
    run_cases(cases);
}

#[test]
fn detects_vcs_hint() {
    let svn = from_input("http://svn.code.sf.net/p/ghq/code/trunk", None, false, None).unwrap();
    assert_eq!(svn.vcs_hint.as_deref(), Some("svn"));
    let svn2 = from_input("https://subversion.assembla.com/svn/ghq/", None, false, None).unwrap();
    assert_eq!(svn2.vcs_hint.as_deref(), Some("svn"));
    let git = from_input("https://github.com/motemen/ghq", None, false, None).unwrap();
    assert_eq!(git.vcs_hint, None);
    let svn_scheme = from_input("svn://example.com/repo/trunk", None, false, None).unwrap();
    assert_eq!(svn_scheme.vcs_hint.as_deref(), Some("svn"));
}

#[test]
fn emits_canonical_https_and_ssh_urls() {
    let r = from_input("git@github.com:motemen/pusheen-explorer.git", None, false, None).unwrap();
    assert_eq!(r.https_url, "https://github.com/motemen/pusheen-explorer");
    assert_eq!(r.ssh_url, "ssh://git@github.com/motemen/pusheen-explorer");

    let r2 = from_input("https://motemen@ghe.example.com/motemen/pusheen-explorer", None, false, None)
        .unwrap();
    assert_eq!(r2.https_url, "https://ghe.example.com/motemen/pusheen-explorer");
    assert_eq!(r2.ssh_url, "ssh://motemen@ghe.example.com/motemen/pusheen-explorer");
}

#[test]
fn parses_codecommit_urls() {
    let r = from_input("codecommit::us-east-1://example-profile@my-repo", None, false, None).unwrap();
    assert_eq!(r.host, "us-east-1");
    assert_eq!(r.owner, "");
    assert_eq!(r.name, "my-repo");
    assert_eq!(r.vcs_hint.as_deref(), Some("git"));

    let r2 = from_input("codecommit://my-repo", None, false, Some("codecommit")).unwrap();
    assert_eq!(r2.host, "codecommit");
    assert_eq!(r2.owner, "");
    assert_eq!(r2.name, "my-repo");
}

struct CodecommitCase {
    input: &'static str,
    want_host: &'static str,
    want_name: &'static str,
}

#[test]
fn finalize_codecommit_matches_ghqs_path_components() {
    let cases: &[(&str, CodecommitCase)] = &[
        (
            "no_region_no_profile",
            CodecommitCase {
                input: "codecommit://my-repo",
                want_host: "codecommit",
                want_name: "my-repo",
            },
        ),
        (
            "no_region_with_profile",
            CodecommitCase {
                input: "codecommit://profile@my-repo",
                want_host: "codecommit",
                want_name: "my-repo",
            },
        ),
        (
            "region_no_profile",
            CodecommitCase {
                input: "codecommit::us-east-1://my-repo",
                want_host: "us-east-1",
                want_name: "my-repo",
            },
        ),
        (
            "region_with_profile",
            CodecommitCase {
                input: "codecommit::us-east-1://example-profile@my-repo",
                want_host: "us-east-1",
                want_name: "my-repo",
            },
        ),
        (
            "repo_name_underscore_dot_hyphen",
            CodecommitCase {
                input: "codecommit::eu-west-2://repo_1.x-y",
                want_host: "eu-west-2",
                want_name: "repo_1.x-y",
            },
        ),
        (
            "region_and_profile_with_repo_name_underscore_dot_hyphen",
            CodecommitCase {
                input: "codecommit::ap-southeast-1://user.name@my.repo-name_2",
                want_host: "ap-southeast-1",
                want_name: "my.repo-name_2",
            },
        ),
    ];

    for (name, c) in cases {
        let repo = from_input(c.input, None, false, Some("codecommit"))
            .unwrap_or_else(|e| panic!("{name} ({:?}): unexpected error: {}", c.input, e.message()));
        assert_eq!(repo.host, c.want_host, "{name}: host");
        assert_eq!(repo.owner, "", "{name}: owner must be empty");
        assert_eq!(repo.name, c.want_name, "{name}: name");

        let dest = rel_path(&repo, false);
        let want = format!("{}/{}", c.want_host, c.want_name).into_bytes();
        assert_eq!(dest, want, "{name}: rel_path");
    }
}

#[test]
fn rejects_path_traversal() {
    assert!(matches!(from_input("../foo/bar", None, false, None), Err(UrlError::PathTraversal(_))));
    assert!(matches!(from_input("foo/../bar", None, false, None), Err(UrlError::PathTraversal(_))));
    assert!(matches!(
        from_input("https://github.com/../etc/passwd", None, false, None),
        Err(UrlError::PathTraversal(_))
    ));
}

#[test]
fn rejects_empty_input() {
    assert!(matches!(from_input("", None, false, None), Err(UrlError::Empty)));
}

#[test]
fn returns_unknown_user_when_complete_user_lacks_scap_user() {
    let err = from_input("peco", None, true, None).unwrap_err();
    match err {
        UrlError::UnknownUser { input } => assert_eq!(input, "peco"),
        other => panic!("expected UnknownUser, got {other:?}"),
    }
}

#[test]
fn preserves_original_input() {
    let r = from_input("git@github.com:motemen/pusheen-explorer.git", None, false, None).unwrap();
    assert_eq!(r.original_input, "git@github.com:motemen/pusheen-explorer.git");
}

const CODECOMMIT_PATTERN: &str =
    r"^(codecommit):(?::([a-z][a-z0-9-]+):)?//(?:([^\]]+)@)?(?-u:[\w.-])+$";

#[test]
fn is_codecommit_input_matches_ghq_acceptance_set() {
    let cases: &[(&str, bool)] = &[
        ("codecommit://a/b", false),
        ("codecommit::u://x", false),
        ("codecommit::US-east-1://x", false),
        ("codecommit://", false),
        ("codecommit://user@repo", true),
        ("codecommit://a/b@c", true),
        ("codecommit::us-east-1://repo_1.x-y", true),
        ("codecommit://a@b@c", true),
        ("codecommit://a]b@c", false),
        ("codecommit://répo", false),
        ("codecommit://a@", false),
        ("codecommit://@host", false),
        ("codecommit::us-east-1://a@b/c", false),
        ("https://github.com/foo/bar", false),
        ("git@github.com:foo/bar", false),
        ("codecommit://my-repo", true),
        ("codecommit::us-east-1://my-repo", true),
        ("codecommit://profile@my-repo", true),
    ];

    for &(input, want) in cases {
        assert_eq!(is_codecommit_input(input), want, "is_codecommit_input({input:?})");
    }
}

#[test]
fn is_codecommit_input_agrees_with_ghqs_pattern() {
    let re = regex::Regex::new(CODECOMMIT_PATTERN).expect("the pattern compiles");

    let prefixes =
        ["codecommit:", "codecommit::us-east-1:", "codecommit::u:", "codecommit::US:", "git:"];
    let separators = ["//", "/", ""];
    let users = ["", "a@", "a@b@", "a]b@", "@", "a/b@"];
    let hosts = ["repo", "repo_1.x-y", "a/b", "répo", "", "x]", "-"];
    let suffixes = ["", "/", "]", "@x"];

    let mut checked = 0usize;
    let mut disagreements = Vec::new();
    for prefix in prefixes {
        for separator in separators {
            for user in users {
                for host in hosts {
                    for suffix in suffixes {
                        let input = format!("{prefix}{separator}{user}{host}{suffix}");
                        checked += 1;
                        let got = is_codecommit_input(&input);
                        let want = re.is_match(&input);
                        if got != want {
                            disagreements.push((input, got, want));
                        }
                    }
                }
            }
        }
    }

    assert!(checked >= 200, "corpus too small: {checked} strings");
    if let Some((input, got, want)) = disagreements.first() {
        panic!(
            "{} of {checked} strings disagree with the pattern; first: \
             {input:?} -> is_codecommit_input {got}, regex {want}",
            disagreements.len()
        );
    }
}

#[test]
fn every_refusal_says_why() {
    let message = |input: &str| from_input(input, None, true, None).unwrap_err().message();
    assert_eq!(message(""), "empty input");
    assert_eq!(message("a/../b"), "path traversal in input: \"a/../b\"");
    assert_eq!(message("a\\..\\b"), "path traversal in input: \"a\\\\..\\\\b\"");
    assert_eq!(
        message("peco"),
        "could not infer owner for \"peco\"; set ghq.user in your gitconfig or pass --me"
    );
    assert_eq!(
        message("a/b/c"),
        "malformed URL \"a/b/c\": bare input has 3 path segments"
    );
    assert_eq!(
        message("https://example.com/only"),
        "malformed URL \"https://example.com/only\": expected owner/repo, got \"only\""
    );
    assert_eq!(
        message("https://example.com/"),
        "URL has no repository path: \"https://example.com/\""
    );
    assert_eq!(
        message("codecommit://my-repo"),
        "You must specify a region. You can also configure your region by running \"aws configure\"."
    );
    assert!(matches!(
        from_input("https://", None, false, None),
        Err(UrlError::Malformed { .. })
    ));
    assert!(matches!(from_input("///", None, false, None), Err(UrlError::Empty)));
}

fn parts(scheme: UrlScheme, user: Option<&str>, host: Option<&str>, path: &str) -> UrlParts {
    UrlParts {
        scheme,
        user: user.map(str::to_owned),
        host: host.map(str::to_owned),
        path: path.as_bytes().to_vec(),
    }
}

#[test]
fn parts_of_a_url_make_a_repository() {
    let file = parts(UrlScheme::File, None, None, "/srv/git/team/proj.git/");
    let repo = from_parts("x", &file, "/srv/git/team/proj.git/").unwrap();
    assert_eq!((repo.host.as_str(), repo.owner.as_str(), repo.name.as_str()), ("", "srv/git/team", "proj"));
    assert_eq!(repo.https_url, "https:///srv/git/team/proj");
    assert_eq!(repo.ssh_url, "ssh://git@/srv/git/team/proj");

    let ext = parts(UrlScheme::Ext("HG+ssh".to_owned()), Some("me"), Some("Example.COM"), "/a/b");
    let repo = from_parts("x", &ext, "/a/b").unwrap();
    assert_eq!(repo.host, "example.com");
    assert_eq!(repo.vcs_hint.as_deref(), Some("hg"));
    assert_eq!(repo.ssh_url, "ssh://me@example.com/a/b");

    let hg = parts(UrlScheme::Https, None, Some("hg.example.com"), "/a/b");
    assert_eq!(from_parts("x", &hg, "/a/b").unwrap().vcs_hint.as_deref(), Some("hg"));
    let other = parts(UrlScheme::Ext("Fossil".to_owned()), None, Some("h"), "/a/b");
    assert_eq!(from_parts("x", &other, "/a/b").unwrap().vcs_hint.as_deref(), Some("fossil"));

    let hostless = parts(UrlScheme::Https, None, None, "/a/b");
    let err = from_parts("in", &hostless, "/a/b").unwrap_err();
    assert_eq!(err.message(), "URL has no host: \"in\"");
}

#[test]
fn what_cannot_be_taken_apart_is_malformed() {
    let err = from_parsed("in", Err("why".to_owned())).unwrap_err();
    assert_eq!(err.message(), "malformed URL \"in\": why");
    let mut broken = parts(UrlScheme::Ssh, None, Some("h"), "");
    broken.path = b"/own\xffer/name".to_vec();
    let repo = from_parsed("in", Ok(broken)).unwrap();
    assert_eq!(repo.owner, "own\u{fffd}er");
}

#[test]
fn arguments_are_normalized_by_how_they_are_written() {
    let cases = [
        ("https://a/b", "https://a/b", NormalizedKind::HasScheme),
        ("://", "://", NormalizedKind::HasScheme),
        ("://x", "://x", NormalizedKind::HasScheme),
        ("me@host.example:/a/b", "ssh://me@host.example/a/b", NormalizedKind::Scp),
        ("host:a", "ssh://host/a", NormalizedKind::Scp),
        ("a@b@c:d", "ssh://a@b@c/d", NormalizedKind::Scp),
        ("@:x/y", "@:x/y", NormalizedKind::Bare),
        ("example.com/a/b", "https://example.com/a/b", NormalizedKind::HostBare),
        ("example.com", "example.com", NormalizedKind::Bare),
        (".example/a", ".example/a", NormalizedKind::Bare),
        ("exa_mple.com/a", "exa_mple.com/a", NormalizedKind::Bare),
        ("a/b", "a/b", NormalizedKind::Bare),
    ];
    for (input, value, kind) in cases {
        let got = normalize_to_parseable(input);
        assert_eq!(got.value, value, "{input}");
        assert_eq!(got.kind, kind, "{input}");
    }
}

#[test]
fn a_region_is_found_in_the_documented_order() {
    let pick = |a: Option<&str>, b: Option<&str>, c: Option<&str>| {
        resolve_codecommit_region(a, b, c.map(str::to_owned))
    };
    assert_eq!(pick(Some("r1"), Some("r2"), Some("r3")).unwrap(), "r1");
    assert_eq!(pick(Some(""), Some("r2"), Some("r3")).unwrap(), "r2");
    assert_eq!(pick(None, Some(""), Some("r3")).unwrap(), "r3");
    assert!(matches!(pick(None, None, None), Err(UrlError::MissingCodecommitRegion)));

    assert_eq!(region_from_output(true, b" eu-west-1\n").as_deref(), Some("eu-west-1"));
    assert_eq!(region_from_output(true, b" \n\t"), None);
    assert_eq!(region_from_output(false, b"eu-west-1\n"), None);

    assert!(needs_region("codecommit://repo"));
    assert!(!needs_region("codecommit::us-east-1://repo"));
    assert!(!needs_region("owner/repo"));
    assert!(!needs_region(""));
}

#[test]
fn a_codecommit_argument_is_read_one_way_only() {
    let c = parse_codecommit("codecommit::us-east-1://a@b@c").unwrap();
    assert_eq!(c.region.as_deref(), Some("us-east-1"));
    assert_eq!(c.user.as_deref(), Some("a@b"));
    assert_eq!(c.name, "c");
    let repo = finalize_codecommit("in", c, Some("elsewhere")).unwrap();
    assert_eq!(repo.https_url, "codecommit://a@b@us-east-1/c");
    assert_eq!(repo.ssh_url, repo.https_url);
    assert_eq!(repo.host, "us-east-1");
}
