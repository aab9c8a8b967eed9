use fish_session::paths::{file_name, join, paths_equal, paths_match, split_components, Place};

fn place(path: &str, canonical: Option<&str>) -> Place {
    Place { path: path.to_string(), canonical: canonical.map(|c| c.as_bytes().to_vec()) }
}

#[test]
fn parts_are_joined_with_one_slash() {
    assert_eq!(join("/a", "b"), "/a/b");
    assert_eq!(join("/a/", "b"), "/a/b");
    assert_eq!(join("", "b"), "b");
}

#[test]
fn paths_match_by_components() {
    assert_eq!(split_components("/a//b/./c/"), ["a", "b", "c"]);
    assert_eq!(split_components("./a"), [".", "a"]);
    assert!(paths_match("/a//b/./c/", "/a/b/c"));
    assert!(!paths_match("/a/b", "a/b"));
    assert!(!paths_match("./a", "a"));
    assert!(!paths_match("/a/../b", "/b"));
    for (left, right) in [("/a//b/./c/", "/a/b/c"), ("/a/b", "a/b"), ("./a", "a"), ("a/.", "a")] {
        assert_eq!(
            paths_match(left, right),
            std::path::Path::new(left) == std::path::Path::new(right)
        );
    }
}

#[test]
fn the_name_is_the_last_component() {
    for path in ["/a/b", "/a/b/", "/a/b/.", "/", "", ".", "..", "/a/..", "a", "./a", "/a/ b"] {
        let expected = std::path::Path::new(path).file_name().map(|n| n.to_str().unwrap());
        assert_eq!(file_name(path).as_deref(), expected, "{path:?}");
    }
}

#[test]
fn places_go_by_their_canonical_form() {
    assert!(paths_equal(&place("/link", Some("/real")), &place("/real", Some("/real"))));
    assert!(!paths_equal(&place("/a", Some("/x")), &place("/a", Some("/y"))));
    assert!(paths_equal(&place("/gone/", None), &place("/gone", None)));
    assert!(!paths_equal(&place("/gone", None), &place("/here", Some("/here"))));
    assert!(paths_equal(&place("/here", None), &place("/here", Some("/real"))));
}
