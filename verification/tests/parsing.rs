use felys::packrat::{Memo, Parser};
use felys::stream::{is_white, utf8_width, Stream};
use std::collections::HashSet;

fn parser(code: &str) -> Parser<u32> {
    Parser::new(code.to_string(), HashSet::new())
}

#[test]
fn next_skips_white_space_outside_strict_mode() {
    let mut s = Stream { body: "  a b".to_string(), strict: false, cursor: 0 };
    assert_eq!(s.next(), Some('a'));
    assert_eq!(s.cursor, 3);
    assert_eq!(s.next(), Some('b'));
    assert_eq!(s.next(), None);
    assert_eq!(s.cursor, 5);
}

#[test]
fn next_reads_white_space_in_strict_mode() {
    let mut s = Stream { body: " a".to_string(), strict: true, cursor: 0 };
    assert_eq!(s.next(), Some(' '));
    assert_eq!(s.cursor, 1);
}

#[test]
fn the_cursor_counts_bytes() {
    let mut s = Stream { body: "你好 x".to_string(), strict: false, cursor: 0 };
    assert_eq!(s.next(), Some('你'));
    assert_eq!(s.cursor, 3);
    assert_eq!(s.next(), Some('好'));
    assert_eq!(s.cursor, 6);
    assert_eq!(s.next(), Some('x'));
    assert_eq!(s.cursor, 8);
}

#[test]
fn trim_moves_over_white_space_only() {
    let mut s = Stream { body: " \t\n x".to_string(), strict: false, cursor: 0 };
    s.trim();
    assert_eq!(s.cursor, 4);
    s.trim();
    assert_eq!(s.cursor, 4);
    let mut t = Stream { body: "  x".to_string(), strict: true, cursor: 0 };
    t.trim();
    assert_eq!(t.cursor, 0);
}

#[test]
fn widths_and_white_space_follow_std() {
    for c in ['a', 'é', '你', '😀', ' ', '\u{3000}', '\u{85}', 'x', '\t'] {
        assert_eq!(utf8_width(c), c.len_utf8());
        assert_eq!(is_white(c), c.is_whitespace());
    }
}

#[test]
fn expect_reads_a_keyword_after_white_space() {
    let mut p = parser("  if x");
    assert_eq!(p.expect("if"), Some("if"));
    assert_eq!(p.stream.cursor, 4);
    assert!(!p.stream.strict);
}

#[test]
fn expect_restores_the_cursor_on_a_mismatch() {
    let mut p = parser("  in");
    assert_eq!(p.expect("if"), None);
    assert_eq!(p.stream.cursor, 0);
    assert_eq!(p.expect("in x"), None);
    assert_eq!(p.stream.cursor, 0);
}

#[test]
fn expect_does_nothing_while_an_error_is_pending() {
    let mut p = parser("if");
    p.err("boom");
    assert_eq!(p.error, Some((0, "boom")));
    assert_eq!(p.expect("if"), None);
    assert_eq!(p.stream.cursor, 0);
}

#[test]
fn scan_keeps_what_the_filter_accepts() {
    let mut p = parser(" 7a");
    assert_eq!(p.scan(|c: char| c.is_ascii_digit()), Some('7'));
    assert_eq!(p.stream.cursor, 2);
    assert_eq!(p.scan(|c: char| c.is_ascii_digit()), None);
    assert_eq!(p.stream.cursor, 2);
}

#[test]
fn scan_at_the_end_leaves_the_cursor_at_the_end() {
    let mut p = parser("x  ");
    p.stream.cursor = 1;
    assert_eq!(p.scan(|_c: char| true), None);
    assert_eq!(p.stream.cursor, 3);
}

#[test]
fn lookahead_does_not_move() {
    let mut p = parser("  z");
    assert_eq!(p.lookahead(|c: char| c == 'z'), Some('z'));
    assert_eq!(p.stream.cursor, 0);
    assert_eq!(p.lookahead(|c: char| c == 'y'), None);
    let mut q = parser("");
    assert_eq!(q.lookahead(|c: char| c == '\0'), Some('\0'));
}

#[test]
fn alter_restores_on_failure_and_clears_the_error_on_success() {
    let mut p = parser("abc");
    let r: Option<Option<char>> = p.alter(|x: &mut Parser<u32>| {
        x.stream.cursor = 2;
        None
    });
    assert_eq!(r, None);
    assert_eq!(p.stream.cursor, 0);
    let r = p.alter(|x: &mut Parser<u32>| {
        x.stream.cursor = 1;
        x.stream.strict = true;
        Some('a')
    });
    assert_eq!(r, Some(Some('a')));
    assert_eq!(p.stream.cursor, 1);
    assert!(!p.stream.strict);
    p.err("bad");
    let r = p.alter(|_x: &mut Parser<u32>| Some(1));
    assert_eq!(r, Some(None));
}

#[test]
fn memo_files_results_by_position_mode_and_rule() {
    let mut m: Memo<u32> = Memo::new();
    assert_eq!(m.get(0, false, "expr"), None);
    m.insert(0, false, "expr", 4, 10);
    m.insert(0, true, "expr", 5, 11);
    m.insert(0, false, "term", 6, 12);
    assert_eq!(m.get(0, false, "expr"), Some((4, 10)));
    assert_eq!(m.get(0, true, "expr"), Some((5, 11)));
    assert_eq!(m.get(0, false, "term"), Some((6, 12)));
    m.insert(0, false, "expr", 7, 13);
    assert_eq!(m.get(0, false, "expr"), Some((7, 13)));
    m.clear();
    assert_eq!(m.get(0, false, "expr"), None);
}
