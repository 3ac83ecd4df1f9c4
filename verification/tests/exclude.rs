use git_sidecar::exclude::{exclude_entry, with_excluded_entries, without_excluded_entry};

#[test]
fn exclude_entries_are_root_anchored_directories() {
    assert_eq!(exclude_entry("foobar/"), "/foobar/");
    assert_eq!(exclude_entry("sub/vendor/fb/"), "/sub/vendor/fb/");
    assert_eq!(exclude_entry(".test"), "/.test/");
}

#[test]
fn creates_managed_section_in_empty_exclude() {
    let (out, changed) = with_excluded_entries("", &["/foobar/".to_string()]);

    assert!(changed);
    assert_eq!(
        out,
        "# >>> git-sidecar (managed) >>>\n/foobar/\n# <<< git-sidecar (managed) <<<\n"
    );
}

#[test]
fn appends_managed_section_after_existing_rules() {
    let (out, changed) = with_excluded_entries("*.log\nbuild/\n", &["/foobar/".to_string()]);

    assert!(changed);
    assert_eq!(
        out,
        "*.log\nbuild/\n\n# >>> git-sidecar (managed) >>>\n/foobar/\n# <<< git-sidecar (managed) <<<\n"
    );
}

#[test]
fn adds_missing_entry_to_existing_managed_section() {
    let existing =
        "*.log\n\n# >>> git-sidecar (managed) >>>\n/foobar/\n# <<< git-sidecar (managed) <<<\n";
    let (out, changed) =
        with_excluded_entries(existing, &["/foobar/".to_string(), "/fb/".to_string()]);

    assert!(changed);
    assert_eq!(
        out,
        "*.log\n\n# >>> git-sidecar (managed) >>>\n/foobar/\n/fb/\n# <<< git-sidecar (managed) <<<\n"
    );
}

#[test]
fn present_entries_leave_exclude_unchanged() {
    let existing = "# >>> git-sidecar (managed) >>>\n/foobar/\n# <<< git-sidecar (managed) <<<\n";
    let (out, changed) = with_excluded_entries(existing, &["/foobar/".to_string()]);

    assert!(!changed);
    assert_eq!(out, existing);
}

#[test]
fn lines_outside_managed_section_are_ignored_for_matching() {
    // an identical rule outside the section doesn't count as managed
    let existing = "/foobar/\n";
    let (out, changed) = with_excluded_entries(existing, &["/foobar/".to_string()]);

    assert!(changed);
    assert!(out.starts_with("/foobar/\n\n# >>> git-sidecar (managed) >>>\n"));
}

#[test]
fn no_entries_never_changes_exclude() {
    let (out, changed) = with_excluded_entries("*.log\n", &[]);

    assert!(!changed);
    assert_eq!(out, "*.log\n");
}

#[test]
fn removes_entry_from_managed_exclude_section() {
    let content = "*.log\n\n# >>> git-sidecar (managed) >>>\n/foobar/\n/fb/\n# <<< git-sidecar (managed) <<<\n";
    let (out, changed) = without_excluded_entry(content, "/foobar/");

    assert!(changed);
    assert_eq!(
        out,
        "*.log\n\n# >>> git-sidecar (managed) >>>\n/fb/\n# <<< git-sidecar (managed) <<<\n"
    );
}

#[test]
fn absent_exclude_entry_changes_nothing() {
    let content = "# >>> git-sidecar (managed) >>>\n/fb/\n# <<< git-sidecar (managed) <<<\n";
    let (out, changed) = without_excluded_entry(content, "/foobar/");

    assert!(!changed);
    assert_eq!(out, content);
}

#[test]
fn matching_rule_outside_managed_section_is_not_removed() {
    let content = "/foobar/\n";
    let (out, changed) = without_excluded_entry(content, "/foobar/");

    assert!(!changed);
    assert_eq!(out, content);
}

// ---------------------------------------------------------------------------

#[test]
fn adding_twice_is_a_no_op_the_second_time() {
    let entries = ["/a/".to_string(), "/b/".to_string()];
    let (once, changed) = with_excluded_entries("x\r\n  \n", &entries);
    assert!(changed);
    assert_eq!(
        once,
        "x\n\n# >>> git-sidecar (managed) >>>\n/a/\n/b/\n# <<< git-sidecar (managed) <<<\n"
    );
    let (twice, changed) = with_excluded_entries(&once, &entries);
    assert!(!changed);
    assert_eq!(twice, once);
}

#[test]
fn section_without_end_marker_gets_a_fresh_block() {
    let content = "# >>> git-sidecar (managed) >>>\n/a/\n";
    let (out, changed) = with_excluded_entries(content, &["/a/".to_string()]);
    assert!(changed);
    assert_eq!(
        out,
        "# >>> git-sidecar (managed) >>>\n/a/\n\n# >>> git-sidecar (managed) >>>\n/a/\n# <<< git-sidecar (managed) <<<\n"
    );
}

#[test]
fn entries_match_lines_with_surrounding_whitespace() {
    let content = "  # >>> git-sidecar (managed) >>>\n\t/a/  \n# <<< git-sidecar (managed) <<<";
    let (out, changed) = with_excluded_entries(content, &["/a/".to_string()]);
    assert!(!changed);
    assert_eq!(out, content);
    let (out, changed) = without_excluded_entry(content, "/a/");
    assert!(changed);
    assert_eq!(
        out,
        "  # >>> git-sidecar (managed) >>>\n# <<< git-sidecar (managed) <<<\n"
    );
}

#[test]
fn exclude_entry_trims_every_surrounding_slash() {
    assert_eq!(exclude_entry("//a/b//"), "/a/b/");
    assert_eq!(exclude_entry(""), "//");
}

#[test]
fn adding_twice_changes_nothing_the_second_time() {
    let entries = vec!["/a/".to_string(), "/b/".to_string()];
    for content in ["", "*.log\n", "*.log\r\n\n  \n", "# >>> git-sidecar (managed) >>>\n/x/\n"] {
        let (once, changed) = with_excluded_entries(content, &entries);
        assert!(changed);
        let (twice, changed_again) = with_excluded_entries(&once, &entries);
        assert!(!changed_again);
        assert_eq!(twice, once);
    }
}

#[test]
fn unterminated_block_is_closed_by_the_new_one() {
    let (out, changed) = with_excluded_entries(
        "# >>> git-sidecar (managed) >>>\n/x/\n",
        &["/a/".to_string()],
    );
    assert!(changed);
    assert_eq!(
        out,
        "# >>> git-sidecar (managed) >>>\n/x/\n\n# >>> git-sidecar (managed) >>>\n/a/\n# <<< git-sidecar (managed) <<<\n"
    );
}

#[test]
fn removing_after_adding_drops_the_entry() {
    let (added, _) = with_excluded_entries("*.log\n", &["/a/".to_string(), "/b/".to_string()]);
    let (removed, changed) = without_excluded_entry(&added, "/a/");
    assert!(changed);
    assert_eq!(
        removed,
        "*.log\n\n# >>> git-sidecar (managed) >>>\n/b/\n# <<< git-sidecar (managed) <<<\n"
    );
}

#[test]
fn adding_then_removing_an_entry_gives_back_the_file() {
    let c = "*.log\n# >>> git-sidecar (managed) >>>\n/a/\n# <<< git-sidecar (managed) <<<\n/tmp/\n";
    let (added, changed) = with_excluded_entries(c, &["/b/".to_string()]);
    assert!(changed);
    assert_ne!(added, c);
    assert_eq!(without_excluded_entry(&added, "/b/"), (c.to_string(), true));
    // an entry may hold a carriage return inside it
    let (added, changed) = with_excluded_entries(c, &["/b\rc/".to_string()]);
    assert!(changed);
    assert_eq!(without_excluded_entry(&added, "/b\rc/"), (c.to_string(), true));
}

#[test]
fn change_is_reported_exactly_when_the_text_differs() {
    for content in ["", "x\n", "# >>> git-sidecar (managed) >>>\n/a/\n# <<< git-sidecar (managed) <<<\n"] {
        let (out, changed) = with_excluded_entries(content, &["/a/".to_string()]);
        assert_eq!(changed, out != content);
    }
}
