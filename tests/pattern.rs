use git_vendor::pattern::{Pattern, PatternError};

fn pat(raw: &str) -> Pattern {
    Pattern::compile(raw).unwrap()
}

#[test]
fn compile_rejects_empty_pattern() {
    assert_eq!(Pattern::compile("").unwrap_err(), PatternError::InvalidPattern);
}

#[test]
fn compile_records_anchoring_and_directory_flag() {
    let p = pat("*.txt");
    assert!(!p.anchored);
    assert!(!p.directory_only);
    assert_eq!(p.segments, vec![vec!['*', '.', 't', 'x', 't']]);

    let d = pat("pyo3/");
    assert!(d.anchored);
    assert!(d.directory_only);
    assert_eq!(d.segments, vec![vec!['p', 'y', 'o', '3'], vec!['*', '*']]);
}

#[test]
fn unanchored_pattern_matches_last_segment_at_any_depth() {
    let p = pat("*.txt");
    assert!(p.matches_str("c.txt"));
    assert!(p.matches_str("a/b/c.txt"));
    assert!(!p.matches_str("c.txtx"));
    assert!(!p.matches_str("c.txt/d"));
}

#[test]
fn globstar_matches_directory_and_everything_beneath() {
    let p = pat("pyo3/**");
    assert!(p.matches_str("pyo3"));
    assert!(p.matches_str("pyo3/Cargo.toml"));
    assert!(p.matches_str("pyo3/src/lib.rs"));
    assert!(!p.matches_str("other/unrelated.txt"));
    assert!(!p.matches_str("pyo3x/a"));
}

#[test]
fn trailing_slash_behaves_like_globstar() {
    let a = pat("pyo3/");
    let b = pat("pyo3/**");
    assert_eq!(a.segments, b.segments);
    assert_eq!(a.anchored, b.anchored);
    for path in ["pyo3", "pyo3/Cargo.toml", "pyo3/src/lib.rs", "other", "other/pyo3", "py"] {
        assert_eq!(a.matches_str(path), b.matches_str(path), "{}", path);
    }
}

#[test]
fn anchored_pattern_matches_from_root() {
    let p = pat("src/*.rs");
    assert!(p.matches_str("src/lib.rs"));
    assert!(!p.matches_str("a/src/lib.rs"));
    assert!(!p.matches_str("src/a/lib.rs"));
}

#[test]
fn globstar_in_the_middle_backtracks() {
    let p = pat("a/**/z.txt");
    assert!(p.matches_str("a/z.txt"));
    assert!(p.matches_str("a/b/c/z.txt"));
    assert!(!p.matches_str("a/b/c/y.txt"));
    assert!(!p.matches_str("b/z.txt"));
}

#[test]
fn question_mark_matches_one_character() {
    let p = pat("?.md");
    assert!(p.matches_str("a.md"));
    assert!(!p.matches_str("ab.md"));
    assert!(!p.matches_str(".md"));
}

#[test]
fn matching_is_case_sensitive() {
    let p = pat("README.md");
    assert!(p.matches_str("README.md"));
    assert!(!p.matches_str("readme.md"));
}

#[test]
fn selects_directory_an_anchored_pattern_matches() {
    let g = pat("pyo3/**");
    let dir = vec![vec!['p', 'y', 'o', '3']];
    assert!(g.selects(&dir));
    assert!(!pat("pyo3/*").selects(&dir));
    assert!(!pat("*").selects(&dir));
    assert!(pat("pyo3/").selects(&dir));
    assert!(pat("py*/").selects(&dir));
    let sub = vec![vec!['a'], vec!['b']];
    assert!(pat("a/b").selects(&sub));
    assert!(pat("a/*").selects(&sub));
    assert!(!pat("b").selects(&sub));
}
