use sorted_checksums::normalize::normalize_line;

#[test]
fn no_rule_trims_both_ends() {
    assert_eq!(normalize_line("  hello world \t", None), Some("hello world"));
}

#[test]
fn blank_lines_are_skipped() {
    assert_eq!(normalize_line("", None), None);
    assert_eq!(normalize_line(" \t ", None), None);
    assert_eq!(normalize_line("   ", Some("")), None);
}

#[test]
fn unicode_white_space_is_trimmed() {
    assert_eq!(normalize_line("\u{3000}a b\u{a0}", None), Some("a b"));
    assert_eq!(normalize_line("\u{2028}\u{85}", None), None);
}

#[test]
fn rule_strips_prefix_and_leading_space() {
    assert_eq!(normalize_line("10.0.0.1 foo ", Some("10.0.0.1")), Some("foo "));
    assert_eq!(normalize_line("10.0.0.1 foo", Some("10.0.0.1 ")), Some("foo"));
}

#[test]
fn rule_skips_lines_without_prefix() {
    assert_eq!(normalize_line("10.0.0.2 bar", Some("10.0.0.1 ")), None);
    assert_eq!(normalize_line(" 10.0.0.1 foo", Some("10.0.0.1")), None);
}

#[test]
fn prefix_longer_than_line_is_no_match() {
    assert_eq!(normalize_line("10.0", Some("10.0.0.1")), None);
}

#[test]
fn line_equal_to_prefix_gives_empty_record() {
    assert_eq!(normalize_line("10.0.0.1", Some("10.0.0.1")), Some(""));
    assert_eq!(normalize_line("10.0.0.1   ", Some("10.0.0.1")), Some(""));
}

#[test]
fn normalizing_a_record_again_keeps_it() {
    let first = normalize_line("  abc  ", None).unwrap();
    assert_eq!(normalize_line(first, None), Some(first));
    let stripped = normalize_line("pre  xyz", Some("pre")).unwrap();
    assert_eq!(stripped, "xyz");
    assert_eq!(normalize_line(stripped, Some("pre")), None);
}

#[test]
fn empty_prefix_keeps_trailing_space_and_is_stable() {
    let first = normalize_line("  x y ", Some("")).unwrap();
    assert_eq!(first, "x y ");
    assert_eq!(normalize_line(first, Some("")), Some(first));
}
