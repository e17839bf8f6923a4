use git_vendor::attributes::VendorDep;
use git_vendor::cli::{base_ref_name, fetch_refspec, track_summary, vendor_ref_name, Commands};
use git_vendor::merge::Operation;

#[test]
fn track_summary_lists_given_fields() {
    assert_eq!(
        track_summary("*.txt", "https://x/r.git", Some("main"), Some("lib")),
        vec!["Tracked pattern: *.txt", "  prefix: lib", "  url: https://x/r.git", "  branch: main"]
    );
    assert_eq!(
        track_summary("*.rs", "u", None, None),
        vec!["Tracked pattern: *.rs", "  url: u"]
    );
}

#[test]
fn vendor_refs_replace_unsafe_characters() {
    assert_eq!(vendor_ref_name("pyo3/**"), "refs/vendor/pyo3_0000002f_0000002a_0000002a");
    assert_eq!(vendor_ref_name("*.txt"), "refs/vendor/_0000002a_0000002etxt");
    assert_eq!(base_ref_name("pyo3/"), "refs/vendor-base/pyo3_0000002f");
    assert_eq!(vendor_ref_name("é-x"), "refs/vendor/_000000e9-x");
}

#[test]
fn vendor_refs_differ_for_different_patterns() {
    assert_ne!(vendor_ref_name("a/b"), vendor_ref_name("a_b"));
    assert_ne!(vendor_ref_name("*.txt"), vendor_ref_name("?.txt"));
    assert_ne!(base_ref_name("a/b"), base_ref_name("a_b"));
}

#[test]
fn fetch_refspec_names_branch_or_head() {
    let mut dep = VendorDep { pattern: "lib/**".into(), url: "u".into(), reference: Some("main".into()), prefix: None };
    assert_eq!(fetch_refspec(&dep), "+refs/heads/main:refs/vendor/lib_0000002f_0000002a_0000002a");
    dep.reference = None;
    assert_eq!(fetch_refspec(&dep), "+HEAD:refs/vendor/lib_0000002f_0000002a_0000002a");
}

#[test]
fn commands_name_their_operation() {
    let c = Commands::Merge { pattern: None, no_commit: false, squash: true, message: None };
    assert_eq!(c.operation(), Operation::Merge);
    assert_eq!(Commands::Untrack { pattern: "p".into() }.operation(), Operation::Untrack);
    assert_eq!(Commands::Fetch { pattern: None }.operation(), Operation::Fetch);
}
