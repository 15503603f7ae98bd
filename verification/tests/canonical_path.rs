use cats::canonical_path::{CanonicalPath, CanonicalPathError};
use cats::path_order::name_before;
use std::path::PathBuf;

fn path(text: &str) -> CanonicalPath {
    CanonicalPath::new(text).unwrap()
}

#[test]
fn canonical_texts_are_accepted() {
    for text in ["/", "/a", "/a/b", "/proj/src/index.ts", "/a/.hidden", "/a/...", "/a b/c"] {
        assert_eq!(path(text).to_text(), text);
    }
}

#[test]
fn other_texts_are_refused() {
    for text in [
        "", "a", "a/b", "./a", "../a", "/a/", "//", "/a//b", "/a/./b", "/a/../b", "/.", "/..",
        "/a/.", "/a/..", "//a",
    ] {
        assert_eq!(CanonicalPath::new(text), Err(CanonicalPathError::NotCanonical), "{text:?}");
    }
}

#[test]
fn root_has_no_components() {
    assert_eq!(CanonicalPath::root().depth(), 0);
    assert_eq!(CanonicalPath::root().to_text(), "/");
    assert_eq!(path("/"), CanonicalPath::root());
}

#[test]
fn depth_counts_the_names() {
    assert_eq!(path("/a").depth(), 1);
    assert_eq!(path("/a/b/c.ts").depth(), 3);
}

#[test]
fn parent_drops_the_last_name() {
    assert_eq!(path("/a/b/c.ts").parent(), Some(path("/a/b")));
    assert_eq!(path("/a").parent(), Some(path("/")));
}

#[test]
fn root_has_no_parent() {
    assert_eq!(path("/").parent(), None);
}

#[test]
fn clone_is_the_same_path() {
    let p = path("/a/b/c.ts");
    assert_eq!(p.clone(), p);
    assert!(p.clone().equals(&p));
}

#[test]
fn equal_paths_have_equal_texts() {
    assert!(path("/a/b").equals(&path("/a/b")));
    assert!(!path("/a/b").equals(&path("/a/c")));
    assert!(!path("/a/b").equals(&path("/a")));
    assert!(!path("/a").equals(&path("/a/b")));
    assert!(path("/").equals(&CanonicalPath::root()));
}

#[test]
fn strip_prefix_gives_the_rest() {
    assert_eq!(path("/a/b/c.ts").strip_prefix(&path("/a")), Ok("b/c.ts".to_string()));
    assert_eq!(path("/a/b/c.ts").strip_prefix(&path("/a/b")), Ok("c.ts".to_string()));
    assert_eq!(path("/a/b/c.ts").strip_prefix(&path("/")), Ok("a/b/c.ts".to_string()));
}

#[test]
fn strip_prefix_of_the_path_itself_is_empty() {
    assert_eq!(path("/a/b").strip_prefix(&path("/a/b")), Ok(String::new()));
    assert_eq!(path("/").strip_prefix(&path("/")), Ok(String::new()));
}

#[test]
fn strip_prefix_fails_outside_the_base() {
    assert_eq!(path("/a/b").strip_prefix(&path("/c")), Err(CanonicalPathError::StripPrefix));
    assert_eq!(path("/a/b").strip_prefix(&path("/a/b/c")), Err(CanonicalPathError::StripPrefix));
    assert_eq!(path("/ab/c").strip_prefix(&path("/a")), Err(CanonicalPathError::StripPrefix));
    assert_eq!(path("/").strip_prefix(&path("/a")), Err(CanonicalPathError::StripPrefix));
}

#[test]
fn strip_prefix_agrees_with_the_standard_library() {
    let texts = ["/", "/a", "/a/b", "/a/b/c.ts", "/ab", "/ab/c", "/b"];
    for whole in texts {
        for base in texts {
            let ours = path(whole).strip_prefix(&path(base)).ok();
            let theirs = PathBuf::from(whole)
                .strip_prefix(base)
                .ok()
                .map(|rest| rest.to_str().unwrap().to_string());
            assert_eq!(ours, theirs, "{whole:?} {base:?}");
        }
    }
}

#[test]
fn starts_with_holds_at_and_under_the_base() {
    assert!(path("/a/b").starts_with(&path("/a")));
    assert!(path("/a/b").starts_with(&path("/a/b")));
    assert!(path("/a/b").starts_with(&path("/")));
    assert!(!path("/ab").starts_with(&path("/a")));
    assert!(!path("/a").starts_with(&path("/a/b")));
}

#[test]
fn join_puts_the_specifier_behind_the_directory() {
    assert_eq!(path("/p/src").join("./util"), "/p/src/./util");
    assert_eq!(path("/p/src").join("../lib/x"), "/p/src/../lib/x");
    assert_eq!(path("/").join("./a"), "/./a");
    assert_eq!(path("/p").join("/abs"), "/abs");
}

#[test]
fn resolve_ts_file_of_a_directory_is_its_index() {
    assert_eq!(path("/p").resolve_ts_file("./util", true), "/p/./util/index.ts");
    assert_eq!(path("/p").resolve_ts_file(".", true), "/p/./index.ts");
    assert_eq!(path("/p/q").resolve_ts_file("..", true), "/p/q/../index.ts");
}

#[test]
fn resolve_ts_file_of_a_file_gets_the_default_extension() {
    assert_eq!(path("/p").resolve_ts_file("./util", false), "/p/./util.ts");
    assert_eq!(path("/p").resolve_ts_file("./util.ts", false), "/p/./util.ts");
    assert_eq!(path("/p").resolve_ts_file("./data.json", false), "/p/./data.json");
    assert_eq!(path("/p").resolve_ts_file("./x.d", false), "/p/./x.d");
}

#[test]
fn names_are_ordered_by_their_characters() {
    assert!(name_before("a", "b"));
    assert!(name_before("a", "ab"));
    assert!(name_before("", "a"));
    assert!(name_before("B", "a"));
    assert!(name_before("a.b", "a/b"));
    assert!(name_before("z", "é"));
    assert!(!name_before("b", "a"));
    assert!(!name_before("a", "a"));
    assert!(!name_before("ab", "a"));
    assert!(!name_before("", ""));
}

#[test]
fn paths_are_ordered_name_by_name() {
    assert!(path("/a").precedes(&path("/b")));
    assert!(path("/a").precedes(&path("/a/b")));
    assert!(path("/").precedes(&path("/a")));
    assert!(path("/a/b").precedes(&path("/a.b")));
    assert!(path("/a/z").precedes(&path("/ab")));
    assert!(!path("/a").precedes(&path("/a")));
    assert!(!path("/b").precedes(&path("/a/b")));
}

#[test]
fn order_agrees_with_the_standard_library() {
    let texts = ["/", "/a", "/a/b", "/a.b", "/a/b/c", "/ab", "/a b", "/B", "/a/.x", "/é"];
    for left in texts {
        for right in texts {
            let ours = path(left).precedes(&path(right));
            assert_eq!(ours, PathBuf::from(left) < PathBuf::from(right), "{left:?} {right:?}");
            assert_eq!(ours, path(left) < path(right), "{left:?} {right:?}");
            assert_eq!(path(left).equals(&path(right)), path(left) == path(right));
        }
    }
}

#[test]
fn order_is_total_and_strict() {
    let texts = ["/", "/a", "/a/b", "/a.b", "/ab", "/b"];
    for left in texts {
        for right in texts {
            let before = path(left).precedes(&path(right));
            let after = path(right).precedes(&path(left));
            let same = path(left).equals(&path(right));
            assert_eq!([before, after, same].iter().filter(|b| **b).count(), 1);
        }
    }
}

#[test]
fn text_round_trip_keeps_the_path() {
    for text in ["/", "/a", "/a/b/c.ts"] {
        let p = path(text);
        assert_eq!(CanonicalPath::new(&p.to_text()), Ok(p));
    }
}
