use std::time::Duration;

use scap::cmd::list::{
    filter_repos, format_unique, host_component, looks_like_authority, lowercase, micros,
    name_repositories, non_host_path, push_full_path, root_prefix, run, split_authority_prefix,
    subpaths, write_lines, ListArgs, Repo,
};
use scap::walk::{Record, RootListing};

/// A repository under the test root `/r`, named by that root.
fn repo(abs: &str) -> Repo<'_> {
    let rel = abs.strip_prefix("/r/").expect("test repositories live under /r");
    Repo { abs: abs.as_bytes(), rel: rel.as_bytes(), under_primary: true }
}

/// A repository named by some root other than the primary one.
fn foreign<'a>(abs: &'a str, rel: &'a str) -> Repo<'a> {
    Repo { abs: abs.as_bytes(), rel: rel.as_bytes(), under_primary: false }
}

fn args(query: Option<&str>) -> ListArgs {
    ListArgs {
        exact: false,
        vcs: None,
        full_path: false,
        unique: false,
        bare: false,
        query: query.map(str::to_owned),
    }
}

fn rendered(lines: &[&[u8]]) -> Vec<String> {
    lines.iter().map(|l| String::from_utf8_lossy(l).into_owned()).collect()
}

fn rels(repos: &[Repo<'_>]) -> Vec<String> {
    repos.iter().map(|r| String::from_utf8_lossy(r.rel).into_owned()).collect()
}

fn listing(repos: &[&str]) -> RootListing {
    RootListing::from_records(
        repos.iter().map(|rel| Record::repo(rel.as_bytes())).collect(),
        0,
        0,
        false,
    )
}

#[test]
fn subpaths_yields_every_component_tail_shortest_first() {
    assert_eq!(
        rendered(&subpaths(b"github.com/zchee/scap")),
        vec!["scap", "zchee/scap", "github.com/zchee/scap"]
    );
    assert_eq!(rendered(&subpaths(b"solo")), vec!["solo"]);
    assert_eq!(rendered(&subpaths(b".")), vec!["."]);
}

#[test]
fn non_host_path_drops_the_leading_component_and_host_component_keeps_it() {
    assert_eq!(non_host_path(b"github.com/zchee/scap"), b"zchee/scap".as_slice());
    assert_eq!(host_component(b"github.com/zchee/scap"), b"github.com".as_slice());
    assert_eq!(non_host_path(b"solo"), b"".as_slice());
    assert_eq!(host_component(b"solo"), b"solo".as_slice());
}

#[test]
fn push_full_path_joins_the_way_path_join_renders_it() {
    let mut buf = Vec::new();
    push_full_path(&mut buf, b"/roots/one", b"github.com/a/x");
    assert_eq!(buf.as_slice(), b"/roots/one/github.com/a/x".as_slice());

    buf.clear();
    push_full_path(&mut buf, b"/roots/one", b".");
    assert_eq!(buf.as_slice(), b"/roots/one".as_slice());

    buf.clear();
    push_full_path(&mut buf, b"/", b"github.com/a/x");
    assert_eq!(buf.as_slice(), b"/github.com/a/x".as_slice());

    buf.clear();
    push_full_path(&mut buf, b"/roots/one", b"host/\xff\xfe/repo");
    assert_eq!(buf.as_slice(), b"/roots/one/host/\xff\xfe/repo".as_slice());
}

#[test]
fn push_full_path_appends() {
    let mut buf = b"before:".to_vec();
    push_full_path(&mut buf, b"/r", b"x");
    assert_eq!(buf, b"before:/r/x");
}

#[test]
fn root_prefix_matches_on_component_boundaries_only() {
    assert_eq!(root_prefix(b"/roots/one", b"/roots/one/github.com/a/x"), Some(11));
    assert_eq!(&b"/roots/one/github.com/a/x"[11..], b"github.com/a/x".as_slice());

    assert_eq!(root_prefix(b"/roots/one", b"/roots/one"), Some(10));

    assert_eq!(root_prefix(b"/roots/one", b"/roots/onetwo/x"), None);
    assert_eq!(root_prefix(b"/roots/two", b"/roots/one/x"), None);
    assert_eq!(root_prefix(b"/roots/one/deep", b"/roots/one"), None);

    assert_eq!(root_prefix(b"/", b"/github.com/a/x"), Some(1));
    assert_eq!(root_prefix(b"/", b"/"), Some(1));
}

#[test]
fn the_first_configured_root_that_contains_a_repository_names_it() {
    let outer = b"/tmp/outer".to_vec();
    let inner = b"/tmp/outer/inner".to_vec();
    let of_outer = ["github.com/a/dup", "github.com/b/only", "inner/github.com/c/uniq"];
    let of_inner = ["github.com/c/uniq"];

    let named = |roots: Vec<Vec<u8>>, listings: Vec<RootListing>| {
        let (paths, spans) = name_repositories(&roots, &listings);
        let mut out: Vec<String> = spans
            .iter()
            .map(|s| String::from_utf8_lossy(&paths[s.rel..s.end]).into_owned())
            .collect();
        out.sort();
        out
    };

    assert_eq!(
        named(vec![inner.clone(), outer.clone()], vec![listing(&of_inner), listing(&of_outer)]),
        vec!["github.com/a/dup", "github.com/b/only", "github.com/c/uniq", "github.com/c/uniq"]
    );
    assert_eq!(
        named(vec![outer, inner], vec![listing(&of_outer), listing(&of_inner)]),
        vec![
            "github.com/a/dup",
            "github.com/b/only",
            "inner/github.com/c/uniq",
            "inner/github.com/c/uniq",
        ]
    );
}

#[test]
fn only_the_primary_root_can_name_a_repository_under_primary() {
    let roots = vec![b"/tmp/outer/inner".to_vec(), b"/tmp/outer".to_vec()];
    let listings =
        vec![listing(&["github.com/b/y"]), listing(&["github.com/a/x", "inner/github.com/b/y"])];
    let (paths, spans) = name_repositories(&roots, &listings);

    let mut named: Vec<(String, bool)> = spans
        .iter()
        .map(|s| (String::from_utf8_lossy(&paths[s.rel..s.end]).into_owned(), s.under_primary))
        .collect();
    named.sort();
    assert_eq!(
        named,
        vec![
            ("github.com/a/x".to_owned(), false),
            ("github.com/b/y".to_owned(), true),
            ("github.com/b/y".to_owned(), true),
        ]
    );
}

#[test]
fn every_repository_found_is_named_once_for_each_walk_that_found_it() {
    let roots = vec![b"/a".to_vec(), b"/b".to_vec(), b"/a/n".to_vec()];
    let listings = vec![listing(&["x", "n/y"]), listing(&["."]), listing(&["y"])];
    let (paths, spans) = name_repositories(&roots, &listings);
    let abs: Vec<&[u8]> = spans.iter().map(|s| &paths[s.start..s.end]).collect();
    assert_eq!(rendered(&abs), vec!["/a/x", "/a/n/y", "/b", "/a/n/y"]);
    let rel: Vec<&[u8]> = spans.iter().map(|s| &paths[s.rel..s.end]).collect();
    assert_eq!(rendered(&rel), vec!["x", "n/y", "", "n/y"]);
}

#[test]
fn lowercase_folds_ascii_in_place_and_unicode_the_way_to_lowercase_does() {
    assert_eq!(lowercase(b"GitHub.com/ZChee/SCAP"), b"github.com/zchee/scap".as_slice());
    assert_eq!(lowercase("\u{212a}elvin".as_bytes()), b"kelvin".as_slice());
    assert_eq!(lowercase("\u{130}stanbul".as_bytes()), "i\u{307}stanbul".as_bytes());
    assert_eq!(lowercase(b"HOST/\xff\xfe/REPO"), b"host/\xff\xfe/repo".as_slice());
}

#[test]
fn looks_like_authority_needs_a_dot_and_no_space() {
    assert!(looks_like_authority("github.com"));
    assert!(!looks_like_authority("zchee"));
    assert!(!looks_like_authority("git hub.com"));
}

#[test]
fn split_authority_prefix_only_splits_a_host_looking_head() {
    assert_eq!(split_authority_prefix("github.com/scap"), (Some("github.com"), "scap".to_owned()));
    assert_eq!(split_authority_prefix("zchee/scap"), (None, "zchee/scap".to_owned()));
    assert_eq!(split_authority_prefix("scap"), (None, "scap".to_owned()));
}

#[test]
fn no_query_keeps_every_repository() {
    let repos = vec![repo("/r/github.com/a/x"), repo("/r/github.com/b/y")];
    assert_eq!(rels(&filter_repos(repos, &args(None))), vec!["github.com/a/x", "github.com/b/y"]);
}

#[test]
fn exact_query_matches_a_component_tail_and_nothing_else() {
    let all = || vec![repo("/r/github.com/zchee/scap"), repo("/r/github.com/zchee/other")];
    let mut exact = args(Some("scap"));
    exact.exact = true;
    assert_eq!(rels(&filter_repos(all(), &exact)), vec!["github.com/zchee/scap"]);

    for hit in ["zchee/scap", "github.com/zchee/scap"] {
        exact.query = Some(hit.to_owned());
        assert_eq!(rels(&filter_repos(all(), &exact)), vec!["github.com/zchee/scap"], "{hit}");
    }
    for miss in ["ca", "hee/scap", "github.com/zchee", "com/zchee/scap"] {
        exact.query = Some(miss.to_owned());
        assert!(filter_repos(all(), &exact).is_empty(), "{miss} should match nothing");
    }
}

#[test]
fn substring_query_ignores_the_host_component() {
    let all = || vec![repo("/r/github.com/zchee/scap"), repo("/r/gitlab.com/other/thing")];
    assert_eq!(rels(&filter_repos(all(), &args(Some("zchee")))), vec!["github.com/zchee/scap"]);
    assert!(filter_repos(all(), &args(Some("github"))).is_empty());
}

#[test]
fn a_lowercase_query_is_case_insensitive_and_an_uppercase_one_is_literal() {
    let all = || vec![repo("/r/github.com/ZChee/Scap"), repo("/r/github.com/other/thing")];
    assert_eq!(rels(&filter_repos(all(), &args(Some("zchee")))), vec!["github.com/ZChee/Scap"]);
    assert_eq!(rels(&filter_repos(all(), &args(Some("ZChee")))), vec!["github.com/ZChee/Scap"]);
    assert!(filter_repos(all(), &args(Some("ZCHEE"))).is_empty());
}

#[test]
fn a_host_prefixed_query_filters_by_host_before_matching_the_rest() {
    let all = || {
        vec![
            repo("/r/github.com/zchee/scap"),
            repo("/r/gitlab.com/zchee/scap"),
            repo("/r/github.com/other/scap"),
        ]
    };
    assert_eq!(
        rels(&filter_repos(all(), &args(Some("github.com/zchee")))),
        vec!["github.com/zchee/scap"]
    );
    assert_eq!(
        rels(&filter_repos(all(), &args(Some("zchee/scap")))),
        vec!["github.com/zchee/scap", "gitlab.com/zchee/scap"]
    );
}

#[test]
fn a_folded_query_reaches_unicode_names() {
    let all = vec![repo("/r/host/\u{212a}elvin/x"), repo("/r/host/other/y")];
    assert_eq!(rels(&filter_repos(all, &args(Some("kelvin")))), vec!["host/\u{212a}elvin/x"]);
}

#[test]
fn unique_prints_the_shortest_tail_nothing_else_shares() {
    let repos = vec![
        repo("/r/github.com/zchee/scap"),
        repo("/r/github.com/other/scap"),
        repo("/r/github.com/zchee/solo"),
    ];
    assert_eq!(rendered(&format_unique(&repos)), vec!["zchee/scap", "other/scap", "solo"]);
}

#[test]
fn unique_keeps_the_primary_root_copy_of_a_duplicated_path() {
    let repos = vec![
        repo("/r/github.com/a/dup"),
        foreign("/second/github.com/a/dup", "github.com/a/dup"),
        foreign("/second/github.com/b/solo", "github.com/b/solo"),
    ];
    assert_eq!(rendered(&format_unique(&repos)), vec!["dup", "solo"]);
}

#[test]
fn unique_drops_a_repository_whose_every_tail_belongs_to_another() {
    let repos = vec![repo("/r/github.com/a/dup"), repo("/r/mirror/github.com/a/dup")];
    assert_eq!(rendered(&format_unique(&repos)), vec!["mirror/github.com/a/dup"]);
}

#[test]
fn unique_does_not_drop_a_duplicated_path_that_is_still_unambiguous() {
    let repos = vec![repo("/r/github.com/a/dup"), repo("/r/github.com/a/dup")];
    assert_eq!(rendered(&format_unique(&repos)), vec!["dup", "dup"]);
}

#[test]
fn a_unique_line_names_one_repository() {
    let repos = vec![
        repo("/r/a/b/c"),
        repo("/r/x/b/c"),
        repo("/r/x/y/c"),
        repo("/r/c"),
        repo("/r/x/b"),
    ];
    let lines = rendered(&format_unique(&repos));
    assert_eq!(lines, vec!["a/b/c", "x/b/c", "y/c", "b"]);
    for line in lines {
        let holders = repos
            .iter()
            .filter(|r| rendered(&subpaths(r.rel)).contains(&line))
            .count();
        assert_eq!(holders, 1, "{line}");
    }
}

#[test]
fn micros_reports_whole_microseconds_and_saturates_rather_than_wrapping() {
    assert_eq!(micros(Duration::from_micros(0).as_micros()), 0);
    assert_eq!(micros(Duration::from_millis(3).as_micros()), 3_000);
    assert_eq!(micros(Duration::MAX.as_micros()), u64::MAX);
}

#[test]
fn write_stdout_accepts_an_empty_listing() {
    assert_eq!(write_lines(&Vec::new()), b"");
}

#[test]
fn every_line_ends_in_a_newline() {
    assert_eq!(write_lines(&vec![b"a".to_vec(), b"".to_vec(), b"\xff".to_vec()]), b"a\n\n\xff\n");
}

#[test]
fn a_listing_is_sorted_over_all_roots() {
    let roots = vec![b"/one".to_vec(), b"/two".to_vec()];
    let listings = || vec![listing(&["github.com/z/z", "."]), listing(&["github.com/a/x"])];

    let shown = |args: &ListArgs| {
        let bytes = run(args, &roots, &listings()).expect("git is supported");
        String::from_utf8(bytes).expect("utf-8")
    };
    assert_eq!(shown(&args(None)), ".\ngithub.com/a/x\ngithub.com/z/z\n");

    let mut full = args(None);
    full.full_path = true;
    assert_eq!(shown(&full), "/one\n/one/github.com/z/z\n/two/github.com/a/x\n");

    let mut unique = args(Some("x"));
    unique.unique = true;
    assert_eq!(shown(&unique), "x\n");
}

#[test]
fn a_listing_of_another_vcs_is_refused() {
    let mut hg = args(None);
    hg.vcs = Some("mercurial".to_owned());
    let err = run(&hg, &Vec::new(), &Vec::new()).expect_err("only git is supported");
    assert!(err.message().contains("\"mercurial\""), "{}", err.message());

    for vcs in ["git", "github", "codecommit"] {
        let mut args = args(None);
        args.vcs = Some(vcs.to_owned());
        assert_eq!(run(&args, &Vec::new(), &Vec::new()).expect(vcs), b"");
    }
}
