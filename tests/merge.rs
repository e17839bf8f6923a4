use git_vendor::attributes::{parse_vendor_deps, VendorDep};
use git_vendor::merge::{
    commit_parents, complete_merge, flatten, merge_commit_message, merge_listing, merge_message, merge_order, preflight,
    Completion, MergeResult, Operation, PathEntry, VendorError,
};
use git_vendor::pattern::Pattern;
use git_vendor::tree::{EntryKind, TreeEntry, TreeStore};

fn file(path: &str, oid: &str) -> PathEntry {
    PathEntry { path: path.into(), mode: 0o100644, oid: oid.into() }
}

fn oid_of<'a>(r: &'a MergeResult, path: &str) -> Option<&'a str> {
    r.entries.iter().find(|e| e.path == path).map(|e| e.oid.as_str())
}

fn blob(name: &str, oid: &str) -> TreeEntry {
    TreeEntry { name: name.into(), mode: 0o100644, kind: EntryKind::Blob, oid: oid.into(), subtree: 0 }
}

fn dir(name: &str, oid: &str, subtree: usize) -> TreeEntry {
    TreeEntry { name: name.into(), mode: 0o040000, kind: EntryKind::Tree, oid: oid.into(), subtree }
}

fn dep(pattern: &str) -> VendorDep {
    VendorDep { pattern: pattern.into(), url: "u".into(), reference: None, prefix: None }
}

// -- preflight ----------------------------------------------------------------

#[test]
fn status_ok_with_no_deps() {
    let deps = parse_vendor_deps("");
    assert!(preflight(Operation::Status, false, &deps, None, true).is_ok());
}

#[test]
fn status_ok_with_tracked_dep() {
    let deps = parse_vendor_deps("*.txt vendored url=https://example.com/o/r.git branch=main\n");
    assert_eq!(preflight(Operation::Status, false, &deps, None, true).unwrap().len(), 1);
}

#[test]
fn status_ok_with_tracked_dep_no_branch() {
    let deps = parse_vendor_deps("*.txt vendored url=https://example.com/o/r.git\n");
    let selected = preflight(Operation::Status, false, &deps, None, true).unwrap();
    assert_eq!(selected[0].reference, None);
}

#[test]
fn fetch_errors_with_no_deps() {
    let deps = parse_vendor_deps("");
    let err = preflight(Operation::Fetch, false, &deps, None, true).unwrap_err();
    assert!(err.message().contains("No vendored dependencies to fetch"));
}

#[test]
fn merge_errors_with_no_deps() {
    let deps = parse_vendor_deps("*.md diff\n");
    let err = preflight(Operation::Merge, false, &deps, None, true).unwrap_err();
    assert_eq!(err, VendorError::NoDependencies(Operation::Merge));
    assert!(err.message().contains("No vendored dependencies to merge"));
}

#[test]
fn merge_errors_when_filter_selects_nothing() {
    let deps = vec![dep("*.txt")];
    let err = preflight(Operation::Merge, false, &deps, Some("*.rs"), true).unwrap_err();
    assert_eq!(err, VendorError::NoDependencies(Operation::Merge));
}

#[test]
fn bare_repo_rejects_all_operations() {
    let deps = vec![dep("*.txt")];
    for op in [Operation::Track, Operation::Untrack, Operation::Status, Operation::Fetch, Operation::Merge] {
        let err = preflight(op, true, &deps, None, true).unwrap_err();
        assert_eq!(err, VendorError::BareRepository);
        assert!(err.message().contains("bare repository"));
    }
}

#[test]
fn merge_rejects_dirty_index() {
    let deps = parse_vendor_deps("*.txt vendored url=/tmp/upstream branch=main\n");
    let err = preflight(Operation::Merge, false, &deps, None, false).unwrap_err();
    assert_eq!(err, VendorError::DirtyIndex);
    assert!(
        err.message().contains("uncommitted changes"),
        "expected dirty-index error, got: {}",
        err.message()
    );
    // Fetching does not look at the index.
    assert!(preflight(Operation::Fetch, false, &deps, None, false).is_ok());
}

#[test]
fn merge_order_is_lexical_by_pattern() {
    let deps = vec![dep("b/**"), dep("a/**"), dep("B"), dep("a")];
    let refs: Vec<&VendorDep> = deps.iter().collect();
    let ordered: Vec<&str> = merge_order(refs).iter().map(|d| d.pattern.as_str()).collect();
    assert_eq!(ordered, vec!["B", "a", "a/**", "b/**"]);
}

// -- three-way merge ------------------------------------------------------------

#[test]
fn merge_preserves_non_vendor_files() {
    let head = vec![file("README.md", "readme"), file(".gitattributes", "attrs")];
    let theirs = vec![file("lib.txt", "vendored")];
    let pattern = Pattern::compile("*.txt").unwrap();
    let r = merge_listing(&head, &vec![], &theirs, &pattern);
    assert!(r.conflicts.is_empty());
    assert_eq!(oid_of(&r, "README.md"), Some("readme"));
    assert_eq!(oid_of(&r, ".gitattributes"), Some("attrs"));
    assert_eq!(oid_of(&r, "lib.txt"), Some("vendored"));
    assert_eq!(r.entries.len(), 3);
}

#[test]
fn merge_takes_upstream_change_and_keeps_local_change() {
    let pattern = Pattern::compile("lib/**").unwrap();
    let base = vec![file("lib/a", "a0"), file("lib/b", "b0"), file("lib/c", "c0")];
    let head = vec![file("lib/a", "a0"), file("lib/b", "b1"), file("lib/c", "c0")];
    let theirs = vec![file("lib/a", "a2"), file("lib/b", "b0"), file("lib/d", "d2")];
    let r = merge_listing(&head, &base, &theirs, &pattern);
    assert!(r.conflicts.is_empty());
    // Changed upstream only: taken.
    assert_eq!(oid_of(&r, "lib/a"), Some("a2"));
    // Changed locally only: kept.
    assert_eq!(oid_of(&r, "lib/b"), Some("b1"));
    // Deleted upstream, unchanged locally: deleted.
    assert_eq!(oid_of(&r, "lib/c"), None);
    // Added upstream: added.
    assert_eq!(oid_of(&r, "lib/d"), Some("d2"));
}

#[test]
fn merge_reports_conflicts_and_does_not_write_them() {
    let pattern = Pattern::compile("lib/**").unwrap();
    let base = vec![file("lib/a", "a0")];
    let head = vec![file("lib/a", "a1"), file("lib/n", "n1")];
    let theirs = vec![file("lib/a", "a2"), file("lib/n", "n2")];
    let r = merge_listing(&head, &base, &theirs, &pattern);
    let mut conflicts: Vec<String> = r.conflicts.iter().map(|c| c.path.clone()).collect();
    conflicts.sort();
    assert_eq!(conflicts, vec!["lib/a", "lib/n"]);
    let a = r.conflicts.iter().find(|c| c.path == "lib/a").unwrap();
    assert_eq!(a.base.as_ref().map(|v| v.oid.as_str()), Some("a0"));
    assert_eq!(a.ours.as_ref().map(|v| v.oid.as_str()), Some("a1"));
    assert_eq!(a.theirs.as_ref().map(|v| v.oid.as_str()), Some("a2"));
    let n = r.conflicts.iter().find(|c| c.path == "lib/n").unwrap();
    assert!(n.base.is_none());
    assert_eq!(n.theirs.as_ref().map(|v| v.mode), Some(0o100644));
    assert_eq!(oid_of(&r, "lib/a"), None);
    assert_eq!(completion_for(&r), Completion::Conflicted);
}

fn completion_for(r: &MergeResult) -> Completion {
    complete_merge(!r.conflicts.is_empty(), false, false)
}

#[test]
fn merge_keeps_identical_changes() {
    let pattern = Pattern::compile("lib/**").unwrap();
    let base = vec![file("lib/a", "a0")];
    let head = vec![file("lib/a", "same")];
    let theirs = vec![file("lib/a", "same")];
    let r = merge_listing(&head, &base, &theirs, &pattern);
    assert!(r.conflicts.is_empty());
    assert_eq!(oid_of(&r, "lib/a"), Some("same"));
}

#[test]
fn merge_vendors_subdirectory_from_upstream() {
    let upstream = TreeStore {
        trees: vec![
            vec![dir("other", "t-other", 1), dir("pyo3", "t-pyo3", 2)],
            vec![blob("unrelated.txt", "b-unrelated")],
            vec![blob("Cargo.toml", "b-cargo"), blob("README.md", "b-readme"), dir("src", "t-src", 3)],
            vec![blob("lib.rs", "b-lib"), blob("util.rs", "b-util")],
        ],
    };
    let theirs = flatten(&upstream, 0).unwrap();
    assert_eq!(theirs.len(), 5);
    assert_eq!(theirs[0].path, "other/unrelated.txt");
    assert_eq!(theirs[3].path, "pyo3/src/lib.rs");
    let head = vec![file("Cargo.toml", "host-cargo"), file(".gitattributes", "attrs")];
    let pattern = Pattern::compile("pyo3/**").unwrap();
    let r = merge_listing(&head, &vec![], &theirs, &pattern);
    assert!(r.conflicts.is_empty());
    assert_eq!(oid_of(&r, "Cargo.toml"), Some("host-cargo"));
    assert_eq!(oid_of(&r, "pyo3/Cargo.toml"), Some("b-cargo"));
    assert_eq!(oid_of(&r, "pyo3/README.md"), Some("b-readme"));
    assert_eq!(oid_of(&r, "pyo3/src/lib.rs"), Some("b-lib"));
    assert_eq!(oid_of(&r, "pyo3/src/util.rs"), Some("b-util"));
    assert!(r.entries.iter().all(|e| !e.path.starts_with("other")));
}

#[test]
fn merge_vendors_subdirectory_trailing_slash_pattern() {
    let upstream = TreeStore {
        trees: vec![
            vec![dir("other", "t-other", 1), dir("pyo3", "t-pyo3", 2)],
            vec![blob("unrelated.txt", "b-unrelated")],
            vec![blob("Cargo.toml", "b-cargo"), dir("src", "t-src", 3)],
            vec![blob("lib.rs", "b-lib")],
        ],
    };
    let theirs = flatten(&upstream, 0).unwrap();
    let head = vec![file("README.md", "host-readme"), file(".gitattributes", "attrs")];
    let pattern = Pattern::compile("pyo3/").unwrap();
    let r = merge_listing(&head, &vec![], &theirs, &pattern);
    let mut paths: Vec<&str> = r.entries.iter().map(|e| e.path.as_str()).collect();
    paths.sort();
    assert_eq!(paths, vec![".gitattributes", "README.md", "pyo3/Cargo.toml", "pyo3/src/lib.rs"]);
    assert_eq!(oid_of(&r, "README.md"), Some("host-readme"));
}

// -- completion ------------------------------------------------------------------

#[test]
fn completion_follows_options() {
    assert_eq!(complete_merge(true, true, true), Completion::Conflicted);
    assert_eq!(complete_merge(false, true, false), Completion::Staged);
    assert_eq!(complete_merge(false, false, true), Completion::Commit { squash: true });
    assert_eq!(complete_merge(false, false, false), Completion::Commit { squash: false });
}

#[test]
fn commit_parents_record_provenance_unless_squashed() {
    let head = String::from("h");
    let vendors = vec![String::from("v1"), String::from("v2")];
    assert_eq!(commit_parents(false, &head, &vendors), vec!["h", "v1", "v2"]);
    assert_eq!(commit_parents(true, &head, &vendors), vec!["h"]);
    assert_eq!(commit_parents(false, &head, &vec![]), vec!["h"]);
}

#[test]
fn merge_message_prefers_callers_text() {
    let d = VendorDep {
        pattern: "pyo3/**".into(),
        url: "https://x/pyo3.git".into(),
        reference: Some("main".into()),
        prefix: None,
    };
    assert_eq!(merge_message(Some("mine"), &d), "mine");
    assert_eq!(
        merge_message(None, &d),
        "Merge vendored dependency 'pyo3/**' from https://x/pyo3.git (main)"
    );
}

#[test]
fn flatten_rejects_unknown_root() {
    let st = TreeStore { trees: vec![] };
    assert!(flatten(&st, 0).is_err());
}

#[test]
fn destination_differs_only_on_matched_paths() {
    let pattern = Pattern::compile("lib/**").unwrap();
    let head = vec![file("README.md", "r"), file("lib/a", "a")];
    let same = vec![file("lib/a", "a"), file("other", "x")];
    let changed = vec![file("lib/a", "b")];
    let added = vec![file("lib/a", "a"), file("lib/new", "n")];
    assert!(!git_vendor::merge::destination_differs(&head, &same, &pattern));
    assert!(git_vendor::merge::destination_differs(&head, &changed, &pattern));
    assert!(git_vendor::merge::destination_differs(&head, &added, &pattern));
}

#[test]
fn error_messages_name_the_failure() {
    assert_eq!(
        VendorError::BareRepository.message(),
        "This operation is not supported in a bare repository"
    );
    assert_eq!(
        VendorError::NoDependencies(Operation::Status).message(),
        "No vendored dependencies"
    );
    assert!(VendorError::MissingFetch.message().contains("not been fetched"));
    assert!(VendorError::InvalidPattern.message().contains("pattern"));
    assert!(VendorError::InvalidTreeish.message().contains("not a tree"));
    assert!(VendorError::ObjectStore.message().contains("malformed"));
}

#[test]
fn merge_commit_message_is_the_callers_or_one_line_per_dependency() {
    let a = VendorDep { pattern: "a/**".into(), url: "ua".into(), reference: None, prefix: None };
    let b = VendorDep { pattern: "b/**".into(), url: "ub".into(), reference: Some("dev".into()), prefix: None };
    let deps = vec![&a, &b];
    assert_eq!(merge_commit_message(Some("mine"), &deps), "mine");
    assert_eq!(
        merge_commit_message(None, &deps),
        "Merge vendored dependency 'a/**' from ua\nMerge vendored dependency 'b/**' from ub (dev)"
    );
    assert_eq!(merge_commit_message(None, &vec![]), "");
}
