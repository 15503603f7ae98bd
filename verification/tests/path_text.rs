use cats::path_text::{
    add_default_extension, candidate, find_name, has_extension_text, is_name_text,
    is_relative_text, join,
};
use std::path::{Path, PathBuf};

const TEXTS: [&str; 34] = [
    "",
    "/",
    "//",
    ".",
    "..",
    "./",
    "../",
    "a",
    "a.ts",
    "a.",
    ".a",
    "..a",
    ".a.b",
    "/a/b",
    "/a/b/",
    "/a/b//",
    "/a/b/.",
    "/a/b/./",
    "/a/b/..",
    "/a/b/../",
    "/a/b.c/d",
    "/a/b.c/d.e",
    "/a/./b",
    "/a/./util",
    "/a/../util.ts",
    "/a/.hidden",
    "/a/.hidden.ts",
    "/a/b/...",
    "/a/b/..c",
    "/p/./util/index",
    "/p/x.d.ts",
    "rel/ative",
    "/a/b/. ",
    "/é/ü.ts",
];

#[test]
fn join_appends_after_a_separator() {
    assert_eq!(join("/a/b", "./c"), "/a/b/./c");
    assert_eq!(join("/a/b", "../c"), "/a/b/../c");
    assert_eq!(join("/a/b", "c/d.ts"), "/a/b/c/d.ts");
}

#[test]
fn join_adds_no_second_separator() {
    assert_eq!(join("/", "a"), "/a");
    assert_eq!(join("/a/", "b"), "/a/b");
    assert_eq!(join("", "b"), "b");
}

#[test]
fn join_with_an_absolute_path_gives_that_path() {
    assert_eq!(join("/a/b", "/c"), "/c");
    assert_eq!(join("", "/"), "/");
}

#[test]
fn join_with_nothing_ends_in_a_separator() {
    assert_eq!(join("/a/b", ""), "/a/b/");
    assert_eq!(join("/", ""), "/");
    assert_eq!(join("", ""), "");
}

#[test]
fn join_agrees_with_the_standard_library() {
    for base in TEXTS {
        for rel in TEXTS {
            let expected = Path::new(base).join(rel);
            assert_eq!(Some(join(base, rel).as_str()), expected.to_str(), "{base:?} {rel:?}");
        }
    }
}

#[test]
fn file_name_is_the_last_significant_segment() {
    assert_eq!(find_name("/a/b"), Some((3, 4)));
    assert_eq!(find_name("/a/bcd/"), Some((3, 6)));
    assert_eq!(find_name("/a/b/."), Some((3, 4)));
    assert_eq!(find_name("/a/b/./"), Some((3, 4)));
    assert_eq!(find_name("name.ts"), Some((0, 7)));
}

#[test]
fn some_texts_have_no_file_name() {
    assert_eq!(find_name(""), None);
    assert_eq!(find_name("/"), None);
    assert_eq!(find_name("."), None);
    assert_eq!(find_name(".."), None);
    assert_eq!(find_name("/a/b/.."), None);
    assert_eq!(find_name("/a/b/../"), None);
}

#[test]
fn file_name_agrees_with_the_standard_library() {
    for text in TEXTS {
        let ours = find_name(text).map(|(start, end)| {
            text.chars().skip(start).take(end - start).collect::<String>()
        });
        let theirs = Path::new(text).file_name().map(|n| n.to_str().unwrap().to_string());
        assert_eq!(ours, theirs, "{text:?}");
    }
}

#[test]
fn extension_needs_a_dot_inside_the_name() {
    assert!(has_extension_text("/a/b.ts"));
    assert!(has_extension_text("/a/b."));
    assert!(has_extension_text("/a/..b"));
    assert!(has_extension_text("/a/.b.c"));
    assert!(!has_extension_text("/a/b"));
    assert!(!has_extension_text("/a/.b"));
    assert!(!has_extension_text("/a.b/c"));
    assert!(!has_extension_text("/a/.."));
    assert!(!has_extension_text(""));
}

#[test]
fn extension_agrees_with_the_standard_library() {
    for text in TEXTS {
        assert_eq!(has_extension_text(text), Path::new(text).extension().is_some(), "{text:?}");
    }
}

#[test]
fn default_extension_is_appended_to_a_bare_name() {
    assert_eq!(add_default_extension("/p/util"), "/p/util.ts");
    assert_eq!(add_default_extension("/p/./util"), "/p/./util.ts");
    assert_eq!(add_default_extension("/p/.hidden"), "/p/.hidden.ts");
    assert_eq!(add_default_extension("util"), "util.ts");
}

#[test]
fn default_extension_cuts_off_what_follows_the_name() {
    assert_eq!(add_default_extension("/p/util/"), "/p/util.ts");
    assert_eq!(add_default_extension("/p/util/."), "/p/util.ts");
    assert_eq!(add_default_extension("/p/util//"), "/p/util.ts");
}

#[test]
fn default_extension_leaves_other_texts_alone() {
    assert_eq!(add_default_extension("/p/util.ts"), "/p/util.ts");
    assert_eq!(add_default_extension("/p/util.js"), "/p/util.js");
    assert_eq!(add_default_extension("/p/util."), "/p/util.");
    assert_eq!(add_default_extension("/p/.."), "/p/..");
    assert_eq!(add_default_extension("/"), "/");
    assert_eq!(add_default_extension(""), "");
}

#[test]
fn default_extension_agrees_with_the_standard_library() {
    for text in TEXTS {
        let mut expected = PathBuf::from(text);
        if expected.extension().is_none() {
            expected.set_extension("ts");
        }
        assert_eq!(Some(add_default_extension(text).as_str()), expected.to_str(), "{text:?}");
    }
}

#[test]
fn candidate_of_a_directory_is_its_index() {
    assert_eq!(candidate("/p/./util", true), "/p/./util/index.ts");
    assert_eq!(candidate("/p/./util/", true), "/p/./util/index.ts");
    assert_eq!(candidate("/p/..", true), "/p/../index.ts");
    assert_eq!(candidate("/p/util.d", true), "/p/util.d/index.ts");
}

#[test]
fn candidate_of_a_file_gets_the_default_extension() {
    assert_eq!(candidate("/p/./util", false), "/p/./util.ts");
    assert_eq!(candidate("/p/./util.ts", false), "/p/./util.ts");
    assert_eq!(candidate("/p/./util.json", false), "/p/./util.json");
    assert_eq!(candidate("/p/./a/..", false), "/p/./a/..");
}

#[test]
fn candidate_agrees_with_the_standard_library() {
    for text in TEXTS {
        for is_dir in [false, true] {
            let mut expected = PathBuf::from(text);
            if is_dir {
                expected = expected.join("index");
            }
            if expected.extension().is_none() {
                expected.set_extension("ts");
            }
            assert_eq!(Some(candidate(text, is_dir).as_str()), expected.to_str(), "{text:?}");
        }
    }
}

#[test]
fn names_are_told_from_other_segments() {
    assert!(is_name_text("a"));
    assert!(is_name_text("index.ts"));
    assert!(is_name_text("..."));
    assert!(is_name_text(".a"));
    assert!(is_name_text("a b"));
    assert!(!is_name_text(""));
    assert!(!is_name_text("."));
    assert!(!is_name_text(".."));
    assert!(!is_name_text("a/b"));
    assert!(!is_name_text("/"));
}

#[test]
fn relative_specifiers_start_with_a_dot() {
    assert!(is_relative_text("./a"));
    assert!(is_relative_text("../a"));
    assert!(is_relative_text("."));
    assert!(is_relative_text(".hidden"));
    assert!(!is_relative_text(""));
    assert!(!is_relative_text("a"));
    assert!(!is_relative_text("/a"));
    assert!(!is_relative_text("@scope/a"));
}
