use cmdshiftai::pattern::LinePattern;

#[test]
fn line_pattern_compiles_and_matches() {
    let p = LinePattern::compile("fo+").unwrap();
    assert!(p.matches_line(b"a foo b"));
    assert!(!p.matches_line(b"bar"));
}

#[test]
fn line_pattern_rejects_unclosed_group() {
    assert!(LinePattern::compile("foo(bar").is_none());
}
