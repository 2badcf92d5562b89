use std::path::{Component, Path, PathBuf};

use scap::path::{dest_path, rel_path};
use scap::paths::{clean_path, file_name, join, parent};
use scap::url::from_input;

fn bytes(p: &Path) -> Vec<u8> {
    p.to_str().expect("utf-8").as_bytes().to_vec()
}

const SAMPLES: [&str; 32] = [
    "", "/", "//", ".", "..", "./", "/.", "/..", "a", "a/", "a/b", "a//b", "a/./b", "a/b/.",
    "a/b/./", "./a", "./a/..", "../a", "/a", "/a/", "//a", "/a/../b", "/../a", "a/../..", "a/..",
    "a/../../b/c", "/a/b/../../..", ".git", "a.git/", "..a", "a/...", "/./a/.",
];

#[test]
fn clean_path_normalizes_parent_and_current() {
    assert_eq!(clean_path(b"/a/b/../c"), b"/a/c");
    assert_eq!(clean_path(b"/a/./b"), b"/a/b");
    assert_eq!(clean_path(b"./relative"), b"relative");
}

#[test]
fn clean_path_is_what_the_components_say() {
    for sample in SAMPLES {
        let mut out = PathBuf::new();
        for component in Path::new(sample).components() {
            match component {
                Component::ParentDir => {
                    out.pop();
                }
                Component::CurDir => {}
                other => out.push(other.as_os_str()),
            }
        }
        if out.as_os_str().is_empty() {
            out = PathBuf::from(".");
        }
        let cleaned = clean_path(sample.as_bytes());
        assert_eq!(cleaned, bytes(&out), "{sample:?}");
        assert_eq!(clean_path(&cleaned), cleaned, "{sample:?}");
    }
}

#[test]
fn parents_and_names_are_those_of_the_standard_library() {
    for sample in SAMPLES {
        let path = Path::new(sample);
        assert_eq!(parent(sample.as_bytes()), path.parent().map(bytes), "{sample:?}");
        assert_eq!(
            file_name(sample.as_bytes()),
            path.file_name().map(|n| n.to_str().expect("utf-8").as_bytes().to_vec()),
            "{sample:?}"
        );
        for other in SAMPLES {
            assert_eq!(
                join(sample.as_bytes(), other.as_bytes()),
                bytes(&path.join(other)),
                "{sample:?} {other:?}"
            );
        }
    }
}

#[test]
fn a_repository_lies_below_its_host_and_owner() {
    let repo = from_input("https://gitlab.com/group/subgroup/proj", None, false, None).unwrap();
    assert_eq!(rel_path(&repo, false), b"gitlab.com/group/subgroup/proj");
    assert_eq!(rel_path(&repo, true), b"gitlab.com/group/subgroup/proj.git");
    assert_eq!(dest_path(b"/r", &repo, false), b"/r/gitlab.com/group/subgroup/proj");
    assert_eq!(dest_path(b"/r/", &repo, true), b"/r/gitlab.com/group/subgroup/proj.git");
    let region = from_input("codecommit::us-east-1://x", None, false, None).unwrap();
    assert_eq!(dest_path(b"/r", &region, false), b"/r/us-east-1/x");
}
