use git_vendor::pattern::Pattern;
use git_vendor::tree::{
    filter_tree, kind_label, mode_label, EntryKind, FilterError, FilteredEntry, FilteredTree, TreeEntry,
    TreeStore,
};

fn blob(name: &str, oid: &str) -> TreeEntry {
    TreeEntry { name: name.into(), mode: 0o100644, kind: EntryKind::Blob, oid: oid.into(), subtree: 0 }
}

fn dir(name: &str, oid: &str, subtree: usize) -> TreeEntry {
    TreeEntry { name: name.into(), mode: 0o040000, kind: EntryKind::Tree, oid: oid.into(), subtree }
}

/// {other/unrelated.txt, pyo3/Cargo.toml, pyo3/src/lib.rs}
fn upstream() -> TreeStore {
    TreeStore {
        trees: vec![
            vec![dir("other", "t-other", 1), dir("pyo3", "t-pyo3", 2)],
            vec![blob("unrelated.txt", "b-unrelated")],
            vec![blob("Cargo.toml", "b-cargo"), dir("src", "t-src", 3)],
            vec![blob("lib.rs", "b-lib")],
        ],
    }
}

fn pats(raw: &[&str]) -> Vec<Pattern> {
    raw.iter().map(|r| Pattern::compile(r).unwrap()).collect()
}

fn root_entries(f: &FilteredTree) -> &Vec<FilteredEntry> {
    &f.trees[f.root]
}

fn names(row: &[FilteredEntry]) -> Vec<String> {
    row.iter().map(|e| e.name.clone()).collect()
}

#[test]
fn filter_keeps_selected_directory_with_original_id() {
    let f = filter_tree(&upstream(), 0, &pats(&["pyo3/**"])).unwrap();
    let root = root_entries(&f);
    assert_eq!(names(root), vec!["pyo3"]);
    assert_eq!(root[0].oid, "t-pyo3");
    assert_eq!(root[0].rebuilt, None);
    assert_eq!(root[0].kind, EntryKind::Tree);
}

#[test]
fn filter_trailing_slash_equals_globstar() {
    let a = filter_tree(&upstream(), 0, &pats(&["pyo3/"])).unwrap();
    let b = filter_tree(&upstream(), 0, &pats(&["pyo3/**"])).unwrap();
    assert_eq!(names(root_entries(&a)), names(root_entries(&b)));
    assert_eq!(root_entries(&a)[0].oid, root_entries(&b)[0].oid);
}

#[test]
fn filter_drops_directories_left_empty() {
    let f = filter_tree(&upstream(), 0, &pats(&["*.txt"])).unwrap();
    let root = root_entries(&f);
    assert_eq!(names(root), vec!["other"]);
    let sub = root[0].rebuilt.unwrap();
    assert!(sub < f.root);
    assert_eq!(names(&f.trees[sub]), vec!["unrelated.txt"]);
    assert_eq!(f.trees[sub][0].oid, "b-unrelated");
}

#[test]
fn filter_rebuilds_partly_matched_directories() {
    let f = filter_tree(&upstream(), 0, &pats(&["pyo3/src/*.rs"])).unwrap();
    let root = root_entries(&f);
    assert_eq!(names(root), vec!["pyo3"]);
    let pyo3 = root[0].rebuilt.unwrap();
    assert_eq!(names(&f.trees[pyo3]), vec!["src"]);
    let src = f.trees[pyo3][0].rebuilt.unwrap();
    assert!(src < pyo3);
    assert_eq!(names(&f.trees[src]), vec!["lib.rs"]);
}

#[test]
fn filter_with_no_match_gives_empty_root() {
    let f = filter_tree(&upstream(), 0, &pats(&["nothing/**"])).unwrap();
    assert!(root_entries(&f).is_empty());
}

#[test]
fn filter_twice_gives_same_result() {
    let p = pats(&["*.rs", "other/**"]);
    let a = filter_tree(&upstream(), 0, &p).unwrap();
    let b = filter_tree(&upstream(), 0, &p).unwrap();
    assert_eq!(format!("{:?}", a), format!("{:?}", b));
}

#[test]
fn filter_ignores_pattern_order() {
    let a = filter_tree(&upstream(), 0, &pats(&["*.rs", "other/**", "Cargo.toml"])).unwrap();
    let b = filter_tree(&upstream(), 0, &pats(&["Cargo.toml", "*.rs", "other/**"])).unwrap();
    assert_eq!(format!("{:?}", a), format!("{:?}", b));
}

#[test]
fn filter_rejects_unknown_root() {
    assert_eq!(filter_tree(&upstream(), 4, &pats(&["*"])).unwrap_err(), FilterError::InvalidTreeish);
}

#[test]
fn filter_rejects_cyclic_store() {
    let st = TreeStore { trees: vec![vec![dir("loop", "t", 0)]] };
    assert_eq!(filter_tree(&st, 0, &pats(&["*"])).unwrap_err(), FilterError::MalformedStore);
}

#[test]
fn labels_print_kinds_and_modes_as_tree_listings_do() {
    assert_eq!(kind_label(EntryKind::Blob), "blob");
    assert_eq!(kind_label(EntryKind::Tree), "tree");
    assert_eq!(kind_label(EntryKind::Commit), "commit");
    assert_eq!(mode_label(0o100644), "100644");
    assert_eq!(mode_label(0o40000), "040000");
    assert_eq!(mode_label(0o160000), "160000");
    assert_eq!(mode_label(0), "000000");
    assert_eq!(mode_label(0o12345670), "12345670");
}

#[test]
fn anchored_pattern_keeps_matched_directory_whole() {
    // a/b/f, a/b/sub/g, a/c
    let st = TreeStore {
        trees: vec![
            vec![dir("a", "t-a", 1)],
            vec![dir("b", "t-b", 2), blob("c", "b-c")],
            vec![blob("f", "b-f"), dir("sub", "t-sub", 3)],
            vec![blob("g", "b-g")],
        ],
    };
    let f = filter_tree(&st, 0, &pats(&["a/b"])).unwrap();
    let root = root_entries(&f);
    assert_eq!(names(root), vec!["a"]);
    let a = root[0].rebuilt.unwrap();
    assert_eq!(names(&f.trees[a]), vec!["b"]);
    assert_eq!(f.trees[a][0].oid, "t-b");
    assert_eq!(f.trees[a][0].rebuilt, None);

    // The subdirectories that `a/*` matches are kept whole too.
    let g = filter_tree(&st, 0, &pats(&["a/*"])).unwrap();
    let a = root_entries(&g)[0].rebuilt.unwrap();
    assert_eq!(names(&g.trees[a]), vec!["b", "c"]);
    assert_eq!(g.trees[a][0].rebuilt, None);
    assert_eq!(g.trees[a][0].oid, "t-b");
}

#[test]
fn shared_subtree_is_filtered_once_under_unanchored_patterns() {
    // x/ and y/ hold the same tree object: {a.txt, b.rs}
    let st = TreeStore {
        trees: vec![
            vec![dir("x", "t-s", 1), dir("y", "t-s", 1)],
            vec![blob("a.txt", "b-a"), blob("b.rs", "b-b")],
        ],
    };
    let f = filter_tree(&st, 0, &pats(&["*.txt"])).unwrap();
    let root = root_entries(&f);
    assert_eq!(names(root), vec!["x", "y"]);
    assert_eq!(root[0].rebuilt, root[1].rebuilt);
    assert_eq!(f.trees.len(), 2);
    assert_eq!(names(&f.trees[root[0].rebuilt.unwrap()]), vec!["a.txt"]);

    // An anchored pattern tells the two places apart.
    let g = filter_tree(&st, 0, &pats(&["x/*.txt"])).unwrap();
    assert_eq!(names(root_entries(&g)), vec!["x"]);
}
