use mdzk::path::{diff_paths, is_readme_file, path_to_root};

fn assert_diff_paths(path: &str, base: &str, expected: Option<&str>) {
    assert_eq!(diff_paths(path, base), expected.map(|s| s.to_string()));
}

#[test]
fn test_absolute() {
    assert_diff_paths("/foo", "/bar", Some("../foo"));
    assert_diff_paths("/foo", "bar", Some("/foo"));
    assert_diff_paths("foo", "/bar", None);
    assert_diff_paths("foo", "bar", Some("../foo"));
}

#[test]
fn test_identity() {
    assert_diff_paths(".", ".", Some(""));
    assert_diff_paths("../foo", "../foo", Some(""));
    assert_diff_paths("./foo", "./foo", Some(""));
    assert_diff_paths("/foo", "/foo", Some(""));
    assert_diff_paths("foo", "foo", Some(""));

    assert_diff_paths("../foo/bar/baz", "../foo/bar/baz", Some(""));
    assert_diff_paths("foo/bar/baz", "foo/bar/baz", Some(""));
}

#[test]
fn test_subset() {
    assert_diff_paths("foo", "fo", Some("../foo"));
    assert_diff_paths("fo", "foo", Some("../fo"));
}

#[test]
fn test_empty() {
    assert_diff_paths("", "", Some(""));
    assert_diff_paths("foo", "", Some("foo"));
    assert_diff_paths("", "foo", Some(".."));
}

#[test]
fn test_relative() {
    assert_diff_paths("../foo", "../bar", Some("../foo"));
    assert_diff_paths("../foo", "../foo/bar/baz", Some("../.."));
    assert_diff_paths("../foo/bar/baz", "../foo", Some("bar/baz"));

    assert_diff_paths("foo/bar/baz", "foo", Some("bar/baz"));
    assert_diff_paths("foo/bar/baz", "foo/bar", Some("baz"));
    assert_diff_paths("foo/bar/baz", "foo/bar/baz", Some(""));
    assert_diff_paths("foo/bar/baz", "foo/bar/baz/", Some(""));

    assert_diff_paths("foo/bar/baz/", "foo", Some("bar/baz"));
    assert_diff_paths("foo/bar/baz/", "foo/bar", Some("baz"));
    assert_diff_paths("foo/bar/baz/", "foo/bar/baz", Some(""));
    assert_diff_paths("foo/bar/baz/", "foo/bar/baz/", Some(""));

    assert_diff_paths("foo/bar/baz", "foo/", Some("bar/baz"));
    assert_diff_paths("foo/bar/baz", "foo/bar/", Some("baz"));
    assert_diff_paths("foo/bar/baz", "foo/bar/baz", Some(""));
}

#[test]
fn test_current_directory() {
    assert_diff_paths(".", "foo", Some("../."));
    assert_diff_paths("foo", ".", Some("foo"));
    assert_diff_paths("/foo", "/.", Some("foo"));
}

#[test]
fn diff_paths_with_parent_components() {
    // After the first differing component, every remaining component of
    // `from` (`..` included) is climbed out of.
    assert_diff_paths("foo", "bar/../baz", Some("../../../foo"));
    // A `..` met while `from` is still being walked cannot be undone.
    assert_diff_paths("a/b", "a/../b", None);
    assert_diff_paths("a/b", "a/./c", Some("../b"));
    assert_diff_paths("a//b/./c", "a/b", Some("c"));
}

#[test]
fn path_to_root_counts_named_parents() {
    assert_eq!(path_to_root("note.md"), "./");
    assert_eq!(path_to_root(""), "./");
    assert_eq!(path_to_root("/"), "./");
    assert_eq!(path_to_root("a/note.md"), "../");
    assert_eq!(path_to_root("a/b/note.md"), "../../");
    assert_eq!(path_to_root("./a/../b/note.md"), "../../");
    assert_eq!(path_to_root("/a/note.md"), "../");
}

#[test]
fn file_stem_exactly_matches_readme_case_insensitively() {
    let path = "path/to/Readme.md";
    assert!(is_readme_file(path));

    let path = "path/to/README.md";
    assert!(is_readme_file(path));

    let path = "path/to/rEaDmE.md";
    assert!(is_readme_file(path));

    let path = "path/to/README.markdown";
    assert!(is_readme_file(path));

    let path = "path/to/README";
    assert!(is_readme_file(path));

    let path = "path/to/README-README.md";
    assert!(!is_readme_file(path));
}

#[test]
fn readme_needs_a_file_name() {
    assert!(!is_readme_file("README/.."));
    assert!(!is_readme_file(".readme"));
    assert!(!is_readme_file(""));
    assert!(is_readme_file("README.tar.gz") == false);
}

#[test]
fn diff_paths_climbs_out_of_the_base_and_back_down() {
    assert_diff_paths("a/c", "a/b/x", Some("../../c"));
    assert_diff_paths("a/b/c", "a/d", Some("../b/c"));
    assert_diff_paths("x/y", "p/q", Some("../../x/y"));
}
