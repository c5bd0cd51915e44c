use git_ext::entry::{parse_branch_entry, parse_status, Status};

#[test]
fn parses_current_branch_with_status() {
    let d = parse_branch_entry("* feat-b  abc123 [feat-a: ahead 2] add widget").unwrap();
    assert!(d.current);
    assert_eq!(d.name, "feat-b");
    assert_eq!(d.sha, "abc123");
    assert_eq!(d.upstream.as_deref(), Some("feat-a"));
    assert_eq!(d.message, "add widget");
    assert_eq!(d.status, Some(Status { ahead: Some(2), behind: None }));
}

#[test]
fn parses_branch_without_status() {
    let d = parse_branch_entry("  feat-a  def456 [main] base work").unwrap();
    assert!(!d.current);
    assert_eq!(d.name, "feat-a");
    assert_eq!(d.sha, "def456");
    assert_eq!(d.upstream.as_deref(), Some("main"));
    assert_eq!(d.message, "base work");
    assert_eq!(d.status, None);
}

#[test]
fn parses_branch_without_upstream() {
    let d = parse_branch_entry("  main    ghi789 init").unwrap();
    assert_eq!(d.name, "main");
    assert_eq!(d.sha, "ghi789");
    assert_eq!(d.upstream, None);
    assert_eq!(d.status, None);
    assert_eq!(d.message, "init");
}

#[test]
fn parses_ahead_and_behind() {
    let d = parse_branch_entry("  topic 1234567 [origin/topic: ahead 3, behind 12] fix it").unwrap();
    assert_eq!(d.upstream.as_deref(), Some("origin/topic"));
    assert_eq!(d.status, Some(Status { ahead: Some(3), behind: Some(12) }));
    assert_eq!(d.message, "fix it");
}

#[test]
fn parses_gone_upstream() {
    let d = parse_branch_entry("  old 1234567 [origin/old: gone] stale").unwrap();
    assert_eq!(d.upstream.as_deref(), Some("origin/old"));
    assert_eq!(d.status, Some(Status { ahead: None, behind: None }));
}

#[test]
fn bracket_without_space_is_message() {
    let d = parse_branch_entry("  x 1234567 [notes]here").unwrap();
    assert_eq!(d.upstream, None);
    assert_eq!(d.message, "[notes]here");
}

#[test]
fn message_keeps_inner_spaces() {
    let d = parse_branch_entry("  x   abc   two  words ").unwrap();
    assert_eq!(d.message, "two  words");
}

#[test]
fn too_few_fields_is_error() {
    let e = parse_branch_entry("  lonely abc123").unwrap_err();
    assert_eq!(e.line, "  lonely abc123");
    assert_eq!(
        e.message(),
        "Unexpectedly unable to parse branch line   lonely abc123 (wrong number of parts)"
    );
    assert!(parse_branch_entry("").is_err());
    assert!(parse_branch_entry("*").is_err());
    assert!(parse_branch_entry("   only").is_err());
}

#[test]
fn status_counts() {
    assert_eq!(parse_status("behind 7"), Status { ahead: None, behind: Some(7) });
    assert_eq!(parse_status("ahead 1"), Status { ahead: Some(1), behind: None });
    assert_eq!(parse_status("ahead 10, behind 4"), Status { ahead: Some(10), behind: Some(4) });
    assert_eq!(parse_status(""), Status { ahead: None, behind: None });
}

#[test]
fn status_count_too_large_is_absent() {
    assert_eq!(parse_status("ahead 2147483647"), Status { ahead: Some(2147483647), behind: None });
    assert_eq!(parse_status("ahead 2147483648, behind 1"), Status { ahead: None, behind: Some(1) });
}

#[test]
fn star_after_leading_spaces_marks_current() {
    let d = parse_branch_entry("  * x h m").unwrap();
    assert!(d.current);
    assert_eq!(d.name, "x");
    assert_eq!(d.sha, "h");
    assert_eq!(d.message, "m");
    assert!(!parse_branch_entry("  x h m").unwrap().current);
}
