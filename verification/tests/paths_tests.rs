//! Tests for the lexical path handling: normalization, joining, and
//! component-prefix matching.

use bfflib::paths::{matches_filter, normalize_join, path_starts_with};

#[test]
fn join_and_normalize_collapse_dots() {
    assert_eq!(normalize_join("out", "./a/b.txt"), "out/a/b.txt");
    assert_eq!(normalize_join("out", "a/./b.txt"), "out/a/b.txt");
    assert_eq!(normalize_join("out", "a/../b.txt"), "out/b.txt");
    assert_eq!(normalize_join("", "a//b"), "a/b");
}

#[test]
fn parent_references_cannot_escape_below_nothing() {
    // Each `..` removes one collapsed segment; spare ones are dropped.
    assert_eq!(normalize_join("out", "../../etc/passwd"), "etc/passwd");
    assert_eq!(normalize_join("", "../../x"), "x");
}

#[test]
fn absolute_names_replace_the_destination() {
    assert_eq!(normalize_join("out", "/A/foo/../B/./"), "/A/B");
    assert_eq!(normalize_join("out", "/"), "/");
}

#[test]
fn a_path_of_nothing_normalizes_to_dot() {
    assert_eq!(normalize_join("", "."), ".");
    assert_eq!(normalize_join(".", "."), ".");
}

#[test]
fn prefixes_match_whole_components() {
    assert!(path_starts_with("backup/file.txt", "backup"));
    assert!(path_starts_with("backup/file.txt", "backup/file.txt"));
    assert!(!path_starts_with("backup2/file.txt", "backup"));
    assert!(!path_starts_with("backup", "backup/file.txt"));
    assert!(path_starts_with("./backup/file.txt", "./backup"));
    assert!(!path_starts_with("./backup/file.txt", "backup"));
}

#[test]
fn the_empty_filter_selects_everything() {
    assert!(matches_filter("anything", &Vec::new()));
    let filter = vec![String::from("a"), String::from("b")];
    assert!(matches_filter("b/c", &filter));
    assert!(!matches_filter("c/d", &filter));
}
