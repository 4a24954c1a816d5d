use cmdshiftai::content::{body_of, line_record, search_bytes, ContentScanner, Match};
use cmdshiftai::pattern::{LinePattern, NamePattern};

fn summary(ms: &[Match]) -> Vec<(u64, u64, u64, String)> {
    ms.iter().map(|m| (m.line_number, m.column_start, m.column_end, m.text.clone())).collect()
}

#[test]
fn matches_carry_line_numbers_and_offsets() {
    let p = LinePattern::compile("ab").unwrap();
    let found = search_bytes(&p, b"ab\nxx\n\nzabz\nlast ab");
    assert_eq!(
        summary(&found),
        vec![
            (1, 0, 2, "ab\n".to_string()),
            (4, 8, 10, "zabz\n".to_string()),
            (5, 17, 19, "last ab".to_string()),
        ]
    );
}

#[test]
fn empty_file_has_no_lines() {
    let p = LinePattern::compile("").unwrap();
    assert!(search_bytes(&p, b"").is_empty());
}

#[test]
fn empty_lines_are_lines() {
    let p = LinePattern::compile("^$").unwrap();
    let found = search_bytes(&p, b"\n\na\n");
    assert_eq!(summary(&found), vec![(1, 0, 0, "\n".to_string()), (2, 1, 1, "\n".to_string())]);
}

#[test]
fn the_line_feed_is_no_part_of_what_is_matched() {
    let p = LinePattern::compile(r"a\s").unwrap();
    assert!(search_bytes(&p, b"a\n").is_empty());
    assert_eq!(search_bytes(&p, b"a \n").len(), 1);
    let q = LinePattern::compile("a$").unwrap();
    assert_eq!(search_bytes(&q, b"a\nba\n").len(), 2);
}

#[test]
fn carriage_return_stays_in_the_line() {
    let p = LinePattern::compile("foo").unwrap();
    let found = search_bytes(&p, b"foo\r\nbar\r\n");
    assert_eq!(summary(&found), vec![(1, 0, 3, "foo\r\n".to_string())]);
}

#[test]
fn nul_byte_anywhere_leaves_no_match() {
    let p = LinePattern::compile("foo").unwrap();
    assert!(search_bytes(&p, b"foo\nfoo\n\0").is_empty());
    assert!(search_bytes(&p, b"\0foo\n").is_empty());
    assert!(search_bytes(&p, b"foo\0").is_empty());
    assert_eq!(search_bytes(&p, b"foo\n").len(), 1);
}

#[test]
fn invalid_utf8_is_replaced_in_the_text() {
    let p = LinePattern::compile("caf").unwrap();
    let found = search_bytes(&p, b"caf\xff!\nplain caf\xc3\xa9\n");
    assert_eq!(found.len(), 2);
    assert_eq!(found[0].text, "caf\u{fffd}!\n");
    assert_eq!((found[0].column_start, found[0].column_end), (0, 3));
    assert_eq!(found[1].text, "plain caf\u{e9}\n");
    assert_eq!((found[1].column_start, found[1].column_end), (12, 15));
}

#[test]
fn pieces_give_what_the_whole_gives() {
    let p = LinePattern::compile("n[0-9]").unwrap();
    let data: &[u8] = b"n1 first\nnothing\nsplit n2 line\n\nn3";
    let whole = summary(&search_bytes(&p, data));
    assert_eq!(whole.len(), 3);
    for size in 1..data.len() + 2 {
        let mut scanner = ContentScanner::new(&p);
        for chunk in data.chunks(size) {
            assert!(scanner.feed(chunk));
        }
        assert_eq!(scanner.bytes_seen(), 34);
        assert!(!scanner.is_binary());
        assert_eq!(summary(&scanner.finish()), whole);
    }
}

#[test]
fn scanner_stops_counting_matches_at_a_nul_byte() {
    let p = LinePattern::compile("x").unwrap();
    let mut scanner = ContentScanner::new(&p);
    assert!(scanner.feed(b"x\nx\n"));
    assert!(!scanner.feed(b"x\0x\n"));
    assert!(scanner.is_binary());
    assert!(!scanner.feed(b"x\n"));
    assert_eq!(scanner.bytes_seen(), 10);
    assert!(scanner.finish().is_empty());
}

#[test]
fn scanner_without_input_finds_nothing() {
    let p = LinePattern::compile("x").unwrap();
    let scanner = ContentScanner::new(&p);
    assert_eq!(scanner.bytes_seen(), 0);
    assert!(scanner.finish().is_empty());
}

#[test]
fn line_record_holds_what_it_is_given() {
    assert!(line_record(None, 3, 10, b"abc\n").is_none());
    let m = line_record(Some((1, 3)), 3, 10, b"abc\n").unwrap();
    assert_eq!((m.line_number, m.column_start, m.column_end), (3, 11, 13));
    assert_eq!(m.text, "abc\n");
    let m = line_record(Some((0, 0)), 1, 0, b"").unwrap();
    assert_eq!((m.line_number, m.column_start, m.column_end), (1, 0, 0));
    assert_eq!(m.text, "");
}

#[test]
fn body_of_drops_one_line_feed() {
    assert_eq!(body_of(b"abc\n"), b"abc");
    assert_eq!(body_of(b"abc"), b"abc");
    assert_eq!(body_of(b"abc\n\n"), b"abc\n");
    assert_eq!(body_of(b"\n"), b"");
    assert_eq!(body_of(b""), b"");
}

#[test]
fn folding_case_is_the_flag_in_front() {
    let p = LinePattern::compile_with("a|b", true).unwrap();
    assert!(p.matches_line(b"A"));
    assert!(p.matches_line(b"xBx"));
    assert!(!p.matches_line(b"c"));
    let q = LinePattern::compile_with("a|b", false).unwrap();
    assert!(!q.matches_line(b"A"));
    assert!(q.matches_line(b"b"));
    assert!(LinePattern::compile_with("(", true).is_none());
    assert!(LinePattern::compile_with("(", false).is_none());
}

#[test]
fn name_pattern_compiles_and_matches() {
    let p = NamePattern::compile(r"\.rs$").unwrap();
    assert!(p.matches_name("main.rs"));
    assert!(!p.matches_name("main.rs.bak"));
    assert!(NamePattern::compile("a{2,1}").is_none());
}

#[test]
fn an_invalid_pattern_comes_with_the_engines_explanation() {
    let why = match LinePattern::try_compile("foo(bar", false) {
        Err(why) => why,
        Ok(_) => panic!("the pattern compiles"),
    };
    assert!(why.contains("unclosed group"));
    assert_ne!(why, "foo(bar");
    assert!(LinePattern::try_compile("a\nb", false).is_err());
    assert!(LinePattern::try_compile("(", true).is_err());
    let p = match LinePattern::try_compile("x|y", true) {
        Ok(p) => p,
        Err(_) => panic!("the pattern does not compile"),
    };
    assert!(p.matches_line(b"Y"));

    let why = match NamePattern::try_compile("[a") {
        Err(why) => why,
        Ok(_) => panic!("the pattern compiles"),
    };
    assert!(why.contains("unclosed character class"));
    assert!(NamePattern::try_compile("[a]").is_ok());
}

#[test]
fn offsets_are_those_of_the_matched_span() {
    let p = LinePattern::compile("foo").unwrap();
    let found = search_bytes(&p, b"ab\nxfoo\n");
    assert_eq!(summary(&found), vec![(2, 4, 7, "xfoo\n".to_string())]);
    // Of several matches in a line, the first one counts.
    let found = search_bytes(&p, b"foo foo\n  foofoo");
    assert_eq!(
        summary(&found),
        vec![(1, 0, 3, "foo foo\n".to_string()), (2, 10, 13, "  foofoo".to_string())]
    );
    let q = LinePattern::compile("o+").unwrap();
    let found = search_bytes(&q, b"xfoooo\n");
    assert_eq!(summary(&found), vec![(1, 2, 6, "xfoooo\n".to_string())]);
}

#[test]
fn first_span_lies_within_the_line() {
    let p = LinePattern::compile("b+").unwrap();
    assert_eq!(p.first_span(b"aabbbcb"), Some((2, 5)));
    assert_eq!(p.first_span(b"aac"), None);
    assert_eq!(p.first_span(b""), None);
    let q = LinePattern::compile("").unwrap();
    assert_eq!(q.first_span(b"abc"), Some((0, 0)));
    assert_eq!(q.first_span(b""), Some((0, 0)));
}
