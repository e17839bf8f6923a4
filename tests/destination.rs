use git_vendor::destination::{relocate, relocate_listing, static_prefix_len};
use git_vendor::merge::PathEntry;
use git_vendor::pattern::Pattern;

fn file(path: &str, oid: &str) -> PathEntry {
    PathEntry { path: path.into(), mode: 0o100644, oid: oid.into() }
}

#[test]
fn static_prefix_is_the_literal_directory_part() {
    assert_eq!(static_prefix_len(&Pattern::compile("pyo3/**").unwrap()), 1);
    assert_eq!(static_prefix_len(&Pattern::compile("a/b/*.rs").unwrap()), 2);
    assert_eq!(static_prefix_len(&Pattern::compile("a/b/c.rs").unwrap()), 2);
    assert_eq!(static_prefix_len(&Pattern::compile("*.txt").unwrap()), 0);
    assert_eq!(static_prefix_len(&Pattern::compile("*/x/**").unwrap()), 0);
}

#[test]
fn relocate_replaces_the_prefix() {
    let from = vec![vec!['p', 'y', 'o', '3']];
    assert_eq!(relocate("pyo3/src/lib.rs", &from, "vendor/pyo3"), Some("vendor/pyo3/src/lib.rs".to_string()));
    assert_eq!(relocate("pyo3", &from, "deps/"), Some("deps".to_string()));
    assert_eq!(relocate("other/a", &from, "deps"), None);
    assert_eq!(relocate("a/b", &vec![], "x"), Some("x/a/b".to_string()));
}

#[test]
fn relocate_listing_keeps_selected_files_only() {
    let p = Pattern::compile("pyo3/**").unwrap();
    let upstream = vec![file("pyo3/Cargo.toml", "c"), file("other/x", "o"), file("pyo3/src/lib.rs", "l")];
    let moved = relocate_listing(&upstream, &p, "third_party/pyo3");
    let paths: Vec<&str> = moved.iter().map(|e| e.path.as_str()).collect();
    assert_eq!(paths, vec!["third_party/pyo3/Cargo.toml", "third_party/pyo3/src/lib.rs"]);
    assert_eq!(moved[1].oid, "l");
}

#[test]
fn relocated_pattern_matches_the_destination() {
    let p = Pattern::compile("pyo3/**").unwrap().relocate("third_party/pyo3");
    assert!(p.matches_str("third_party/pyo3/src/lib.rs"));
    assert!(!p.matches_str("pyo3/src/lib.rs"));
    let q = Pattern::compile("*.txt").unwrap().relocate("vendor");
    assert!(q.matches_str("vendor/a/b.txt"));
    assert!(q.matches_str("vendor/b.txt"));
    assert!(!q.matches_str("b.txt"));
}
