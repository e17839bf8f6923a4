use git_vendor::attributes::{
    default_gitattributes, gitattributes_candidates,
    filter_deps, is_remote_url, is_vendor_line_for_pattern, parse_vendor_deps, parse_vendor_line,
    remove_vendor_lines, vendor_attributes, VendorDep,
};

// -- is_remote_url ----------------------------------------------------------

#[test]
fn is_remote_url_https() {
    assert!(is_remote_url("https://github.com/owner/repo.git"));
}

#[test]
fn is_remote_url_ssh_scheme() {
    assert!(is_remote_url("ssh://git@github.com/owner/repo.git"));
}

#[test]
fn is_remote_url_scp_style() {
    assert!(is_remote_url("git@github.com:owner/repo.git"));
}

#[test]
fn is_remote_url_rejects_absolute_path() {
    assert!(!is_remote_url("/home/user/repos/mylib"));
}

#[test]
fn is_remote_url_rejects_relative_path() {
    assert!(!is_remote_url("../repos/mylib"));
}

#[test]
fn is_remote_url_rejects_slash_before_at() {
    assert!(!is_remote_url("dir/git@host:path"));
}

#[test]
fn is_remote_url_rejects_trailing_colon() {
    assert!(!is_remote_url("git@host:"));
}

#[test]
fn is_remote_url_rejects_empty() {
    assert!(!is_remote_url(""));
}

// -- parse_vendor_deps ------------------------------------------------------

#[test]
fn parse_vendor_deps_from_file() {
    let content = "*.txt vendored name=o/r1 url=https://a.com/o/r1.git branch=main\n\
                   *.rs vendored name=o/r2 url=https://b.com/o/r2.git branch=dev\n\
                   *.toml vendored name=o/r3 url=https://c.com/o/r3.git\n\
                   # comment\n\
                   *.md diff\n\
                   \n";
    let deps = parse_vendor_deps(content);
    assert_eq!(deps.len(), 3);

    assert_eq!(deps[0].pattern, "*.txt");
    assert_eq!(deps[0].url, "https://a.com/o/r1.git");
    assert_eq!(deps[0].reference, Some("main".into()));

    assert_eq!(deps[1].pattern, "*.rs");
    assert_eq!(deps[1].url, "https://b.com/o/r2.git");
    assert_eq!(deps[1].reference, Some("dev".into()));

    assert_eq!(deps[2].pattern, "*.toml");
    assert_eq!(deps[2].url, "https://c.com/o/r3.git");
    assert_eq!(deps[2].reference, None);
}

#[test]
fn parse_vendor_deps_missing_file_returns_empty() {
    assert!(parse_vendor_deps("").is_empty());
}

#[test]
fn parse_vendor_deps_skips_lines_missing_any_required_vendor_attr() {
    // Missing the marker: skipped.
    assert!(parse_vendor_deps("*.txt url=https://a.com/o/r.git branch=main\n").is_empty());
    // Missing url: skipped.
    assert!(parse_vendor_deps("*.txt name=o/r branch=main\n").is_empty());
}

#[test]
fn parse_vendor_deps_branch_is_optional() {
    let deps = parse_vendor_deps("*.txt vendored name=o/r url=https://a.com/o/r.git\n");
    assert_eq!(deps.len(), 1);
    assert_eq!(deps[0].reference, None);
}

#[test]
fn parse_vendor_deps_reads_prefix_and_crlf() {
    let deps = parse_vendor_deps("a/** vendored url=u prefix=lib/a\r\n  b/ vendored url=v branch=x");
    assert_eq!(deps.len(), 2);
    assert_eq!(deps[0].pattern, "a/**");
    assert_eq!(deps[0].url, "u");
    assert_eq!(deps[0].prefix, Some("lib/a".into()));
    assert_eq!(deps[0].reference, None);
    assert_eq!(deps[1].pattern, "b/");
    assert_eq!(deps[1].reference, Some("x".into()));
    assert_eq!(deps[1].prefix, None);
}

#[test]
fn parse_vendor_line_later_attribute_wins() {
    let dep = parse_vendor_line("p vendored url=first url=second").unwrap();
    assert_eq!(dep.url, "second");
    assert!(parse_vendor_line("#p vendored url=u").is_none());
    assert!(parse_vendor_line("   ").is_none());
}

// -- is_vendor_line_for_pattern ----------------------------------------------

#[test]
fn is_vendor_line_matches() {
    assert!(is_vendor_line_for_pattern(
        "*.txt vendored name=o/r url=https://a.com branch=main",
        "*.txt"
    ));
}

#[test]
fn is_vendor_line_matches_vendored_only() {
    assert!(is_vendor_line_for_pattern("*.txt vendored", "*.txt"));
}

#[test]
fn is_vendor_line_ignores_other_patterns() {
    assert!(!is_vendor_line_for_pattern(
        "*.rs vendored name=o/r url=https://a.com branch=main",
        "*.txt"
    ));
}

#[test]
fn is_vendor_line_ignores_non_vendor_lines() {
    assert!(!is_vendor_line_for_pattern("*.txt diff -text", "*.txt"));
}

#[test]
fn is_vendor_line_ignores_comments_and_blanks() {
    assert!(!is_vendor_line_for_pattern("# comment", "*.txt"));
    assert!(!is_vendor_line_for_pattern("", "*.txt"));
    assert!(!is_vendor_line_for_pattern("   ", "*.txt"));
}

#[test]
fn is_vendor_line_accepts_each_vendor_key() {
    assert!(is_vendor_line_for_pattern("  *.txt\tname=o/r", "*.txt"));
    assert!(is_vendor_line_for_pattern("*.txt url=x", "*.txt"));
    assert!(is_vendor_line_for_pattern("*.txt branch=x", "*.txt"));
    assert!(!is_vendor_line_for_pattern("*.txt prefix=x", "*.txt"));
    assert!(!is_vendor_line_for_pattern("*.txt", "*.txt"));
}

// -- remove_vendor_lines ------------------------------------------------------

#[test]
fn remove_vendor_lines_keeps_non_vendor() {
    let before = "\
*.txt vendored name=o/r url=https://a.com branch=main
*.txt diff
*.rs vendored name=x/y url=https://b.com branch=dev
# comment
";
    let content = remove_vendor_lines(before, "*.txt");
    assert!(!content.contains("url=https://a.com"));
    assert!(content.contains("*.txt diff"));
    assert!(content.contains("*.rs vendored name=x/y"));
    assert!(content.contains("# comment"));
    assert_eq!(
        content,
        "*.txt diff\n*.rs vendored name=x/y url=https://b.com branch=dev\n# comment\n"
    );
}

#[test]
fn remove_vendor_lines_noop_for_missing_file() {
    assert_eq!(remove_vendor_lines("", "*.txt"), "");
}

#[test]
fn remove_vendor_lines_ends_last_line_and_drops_cr() {
    assert_eq!(remove_vendor_lines("a\r\nb", "*.txt"), "a\nb\n");
    assert_eq!(remove_vendor_lines("*.txt url=x\r\n", "*.txt"), "");
}

// -- vendor_attributes ----------------------------------------------------------

#[test]
fn track_pattern_writes_gitattributes() {
    let attrs = vendor_attributes("https://github.com/owner/repo.git", Some("main"), None);
    let content = format!("*.txt {}", attrs.join(" "));
    assert!(content.contains("*.txt"));
    assert!(content.contains("vendored"));
    assert!(content.contains("url=https://github.com/owner/repo.git"));
    assert!(content.contains("branch=main"));
    assert!(!content.contains("prefix="));
}

#[test]
fn track_pattern_omits_branch_when_none() {
    let attrs = vendor_attributes("https://github.com/owner/repo.git", None, None);
    let content = attrs.join(" ");
    assert!(content.contains("vendored"));
    assert!(content.contains("url=https://github.com/owner/repo.git"));
    assert!(!content.contains("branch"));
}

#[test]
fn track_pattern_includes_branch_when_specified() {
    let attrs = vendor_attributes("https://github.com/owner/repo.git", Some("develop"), None);
    assert!(attrs.join(" ").contains("branch=develop"));
}

#[test]
fn vendor_attributes_exact_order() {
    let attrs = vendor_attributes("u", Some("b"), Some("p"));
    assert_eq!(attrs, vec!["vendored", "url=u", "prefix=p", "branch=b"]);
}

// -- filter_deps ------------------------------------------------------------

#[test]
fn filter_deps_none_returns_all() {
    let deps = vec![
        VendorDep {
            prefix: Some("a/b".into()),
            pattern: "a".into(),
            url: "u".into(),
            reference: Some("b".into()),
        },
        VendorDep {
            prefix: Some("c/d".into()),
            pattern: "b".into(),
            url: "u".into(),
            reference: None,
        },
    ];
    assert_eq!(filter_deps(&deps, None).len(), 2);
}

#[test]
fn filter_deps_exact_match() {
    let deps = vec![
        VendorDep {
            prefix: Some("a/b".into()),
            pattern: "*.txt".into(),
            url: "u".into(),
            reference: Some("b".into()),
        },
        VendorDep {
            prefix: Some("c/d".into()),
            pattern: "*.rs".into(),
            url: "u".into(),
            reference: None,
        },
    ];
    let filtered = filter_deps(&deps, Some("*.txt"));
    assert_eq!(filtered.len(), 1);
    assert_eq!(filtered[0].pattern, "*.txt");
}

#[test]
fn filter_deps_no_match() {
    let deps = vec![VendorDep {
        prefix: None,
        pattern: "*.txt".into(),
        url: "u".into(),
        reference: Some("b".into()),
    }];
    assert!(filter_deps(&deps, Some("*.rs")).is_empty());
}

// -- locating .gitattributes ----------------------------------------------------

#[test]
fn gitattributes_candidates_walk_up_to_workdir() {
    assert_eq!(
        gitattributes_candidates("/repo/", "/repo/a/b"),
        vec!["/repo/a/b/.gitattributes", "/repo/a/.gitattributes", "/repo/.gitattributes"]
    );
    assert_eq!(gitattributes_candidates("/repo", "/repo"), vec!["/repo/.gitattributes"]);
    assert!(gitattributes_candidates("/repo", "/other/a").is_empty());
    assert!(gitattributes_candidates("/repo/x", "/repo").is_empty());
    assert_eq!(default_gitattributes("/repo/a"), "/repo/a/.gitattributes");
    assert_eq!(default_gitattributes("/"), "/.gitattributes");
}

#[test]
fn untrack_pattern_removes_vendor_lines() {
    let attrs = vendor_attributes("https://github.com/owner/repo.git", Some("main"), None);
    let content = format!("*.txt {}\n", attrs.join(" "));
    assert!(content.contains("url="));
    let content = remove_vendor_lines(&content, "*.txt");
    assert!(!content.contains("url="));
}

#[test]
fn untrack_pattern_is_noop_without_gitattributes() {
    assert!(remove_vendor_lines("", "*.txt").is_empty());
    assert_eq!(remove_vendor_lines("*.md diff\n", "*.txt"), "*.md diff\n");
}

#[test]
fn remove_vendor_lines_keeps_other_attributes_of_the_line() {
    assert_eq!(remove_vendor_lines("*.txt vendored url=u diff\n", "*.txt"), "*.txt diff\n");
    assert_eq!(remove_vendor_lines("p vendored x\n", "p"), "p x\n");
    assert_eq!(remove_vendor_lines("p  -text vendored\tname=n prefix=q eol=lf", "p"), "p -text eol=lf\n");
    assert_eq!(remove_vendor_lines("p prefix=x\nq vendored url=u\n", "p"), "q vendored url=u\n");
}
