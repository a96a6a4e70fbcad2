use beamup::paths::{components_below, is_below, join_path, path_components, relative_path};

#[test]
fn components_of_paths() {
    assert_eq!(path_components("/a//b/./c/"), vec!["/", "a", "b", "c"]);
    assert_eq!(path_components("./a/.."), vec![".", "a", ".."]);
    assert_eq!(path_components("a/b"), vec!["a", "b"]);
    assert_eq!(path_components(""), Vec::<String>::new());
}

#[test]
fn joining_paths() {
    assert_eq!(join_path("/a", "b"), "/a/b");
    assert_eq!(join_path("/a/", "b"), "/a/b");
    assert_eq!(join_path("", "b"), "b");
    assert_eq!(join_path("/a", "/b"), "/b");
    assert_eq!(join_path("/", "b"), "/b");
}

#[test]
fn below_goes_by_components() {
    assert!(is_below("/a/b", "/a/b/c"));
    assert!(is_below("/a/b", "/a/b"));
    assert!(!is_below("/a/b", "/a/bc"));
    assert!(!is_below("/a/b", "/a"));
}

#[test]
fn relative_paths() {
    assert_eq!(relative_path("/a/b", "/a/b"), "");
    assert_eq!(relative_path("/a/b/", "/a/b/c/d"), "c/d");
    assert_eq!(relative_path("/a/b", "/a/bc"), "/a/bc");
    assert_eq!(relative_path("/a", "/a//./c//d/./"), "c//d");
    assert_eq!(relative_path("/", "/a/b"), "a/b");
    assert_eq!(relative_path("", "/a/b/"), "/a/b");
    assert_eq!(relative_path("", "./a"), "./a");
    assert_eq!(relative_path("", "//"), "/");
    assert_eq!(relative_path("", "./"), ".");
    assert_eq!(components_below("/a", "/a/x/y"), vec!["x", "y"]);
    assert_eq!(components_below("/a", "/b/x"), vec!["/", "b", "x"]);
}

#[test]
fn root_and_relative_path_make_the_path() {
    for (root, path) in
        [("/a/b", "/a/b/c//d"), ("/a/", "/a//x/"), ("", "x/./y"), ("a", "a"), (".", "./q")]
    {
        let back = join_path(root, &relative_path(root, path));
        assert_eq!(path_components(&back), path_components(path));
    }
}
