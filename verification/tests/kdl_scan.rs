use neco::kdl::comment::{
    skip_block_comment, skip_line_space, skip_node_space, skip_single_line_comment, skip_ws,
};
use neco::kdl::scan::{is_disallowed, is_identifier_char, is_newline, is_unicode_space, Scanner};
use neco::kdl::KdlErrorKind;

#[test]
fn unicode_space_table() {
    assert!(is_unicode_space('\t'));
    assert!(is_unicode_space(' '));
    assert!(is_unicode_space('\u{00A0}'));
    assert!(is_unicode_space('\u{3000}'));
    assert!(is_unicode_space('\u{2009}'));
    assert!(!is_unicode_space('a'));
    assert!(!is_unicode_space('\n'));
}

#[test]
fn newline_chars() {
    assert!(is_newline('\n'));
    assert!(is_newline('\r'));
    assert!(is_newline('\u{0085}'));
    assert!(is_newline('\u{000B}'));
    assert!(is_newline('\u{000C}'));
    assert!(is_newline('\u{2028}'));
    assert!(is_newline('\u{2029}'));
    assert!(!is_newline(' '));
}

#[test]
fn disallowed_code_points() {
    assert!(is_disallowed('\u{0000}'));
    assert!(is_disallowed('\u{0008}'));
    assert!(is_disallowed('\u{000E}'));
    assert!(is_disallowed('\u{001F}'));
    assert!(is_disallowed('\u{007F}'));
    assert!(is_disallowed('\u{200E}'));
    assert!(is_disallowed('\u{FEFF}'));
    assert!(!is_disallowed('a'));
    assert!(!is_disallowed('\n'));
}

#[test]
fn identifier_char_rules() {
    assert!(is_identifier_char('a'));
    assert!(is_identifier_char('-'));
    assert!(is_identifier_char('.'));
    assert!(is_identifier_char(','));
    assert!(is_identifier_char('<'));
    assert!(!is_identifier_char('\\'));
    assert!(!is_identifier_char('/'));
    assert!(!is_identifier_char('"'));
    assert!(!is_identifier_char('#'));
    assert!(!is_identifier_char('='));
    assert!(!is_identifier_char(' '));
    assert!(!is_identifier_char('\n'));
}

#[test]
fn scanner_basic_tracking() {
    let mut s = Scanner::new("ab\ncd");
    assert_eq!(s.position(), (1, 1));
    assert_eq!(s.advance(), Some('a'));
    assert_eq!(s.position(), (1, 2));
    assert_eq!(s.advance(), Some('b'));
    assert_eq!(s.position(), (1, 3));
    assert_eq!(s.advance(), Some('\n'));
    assert_eq!(s.position(), (2, 1));
    assert_eq!(s.advance(), Some('c'));
    assert_eq!(s.position(), (2, 2));
}

#[test]
fn scanner_crlf_as_single_newline() {
    let mut s = Scanner::new("a\r\nb");
    assert_eq!(s.advance(), Some('a'));
    assert!(s.consume_newline());
    assert_eq!(s.position(), (2, 1));
    assert_eq!(s.peek(), Some('b'));
}

#[test]
fn scanner_bom_skip() {
    let mut s = Scanner::new("\u{FEFF}hello");
    s.skip_bom();
    assert_eq!(s.peek(), Some('h'));
    assert_eq!(s.position(), (1, 1));
}

#[test]
fn scanner_save_restore() {
    let mut s = Scanner::new("abc");
    s.advance();
    let saved = s.save();
    s.advance();
    s.advance();
    assert!(s.is_eof());
    s.restore(saved);
    assert_eq!(s.peek(), Some('b'));
}

#[test]
fn scanner_expect_and_errors() {
    let mut s = Scanner::new("x\ny");
    assert_eq!(s.expect('y').unwrap_err().kind, KdlErrorKind::UnexpectedChar('x'));
    assert!(s.expect('x').is_ok());
    assert_eq!(s.peek_next(), Some('y'));
    s.advance();
    s.advance();
    let err = s.expect('z').unwrap_err();
    assert_eq!(err.kind(), &KdlErrorKind::UnexpectedEof);
    assert_eq!((err.line(), err.col()), (2, 2));
    assert_eq!(s.slice(0, 3), "x\ny");
    assert_eq!(s.offset(), 3);
}

#[test]
fn single_line_comment() {
    let mut s = Scanner::new("hello\nworld");
    skip_single_line_comment(&mut s).unwrap();
    assert_eq!(s.peek(), Some('\n'));
}

#[test]
fn block_comment_simple() {
    let mut s = Scanner::new(" comment */ rest");
    skip_block_comment(&mut s).unwrap();
    assert_eq!(s.peek(), Some(' '));
}

#[test]
fn block_comment_nested() {
    let mut s = Scanner::new(" outer /* inner */ still */ rest");
    skip_block_comment(&mut s).unwrap();
    assert_eq!(s.peek(), Some(' '));
}

#[test]
fn block_comment_deeply_nested() {
    let mut s = Scanner::new(" a /* b /* c */ */ */x");
    skip_block_comment(&mut s).unwrap();
    assert_eq!(s.peek(), Some('x'));
}

#[test]
fn unclosed_block_comment() {
    let mut s = Scanner::new(" unclosed");
    let err = skip_block_comment(&mut s).unwrap_err();
    assert_eq!(err.kind, KdlErrorKind::UnclosedBlockComment);
}

#[test]
fn unclosed_block_comment_reports_end_position() {
    let mut s = Scanner::new("a\r\nbc");
    let err = skip_block_comment(&mut s).unwrap_err();
    // inside a comment CR and LF are passed one at a time
    assert_eq!((err.line(), err.col()), (3, 3));
}

#[test]
fn ws_skips_space_and_block_comments() {
    let mut s = Scanner::new("  /* comment */  x");
    skip_ws(&mut s).unwrap();
    assert_eq!(s.peek(), Some('x'));
}

#[test]
fn escline_backslash_newline() {
    let mut s = Scanner::new("\\\nrest");
    let consumed = skip_node_space(&mut s).unwrap();
    assert!(consumed);
    assert_eq!(s.peek(), Some('r'));
}

#[test]
fn escline_backslash_comment_newline() {
    let mut s = Scanner::new("\\ // comment\nrest");
    let consumed = skip_node_space(&mut s).unwrap();
    assert!(consumed);
    assert_eq!(s.peek(), Some('r'));
}

#[test]
fn node_space_reports_nothing_passed() {
    let mut s = Scanner::new("\\x");
    assert!(!skip_node_space(&mut s).unwrap());
    assert_eq!(s.peek(), Some('\\'));
}

#[test]
fn line_space_passes_newlines_and_comments() {
    let mut s = Scanner::new(" // one\r\n/* two */\n  three");
    skip_line_space(&mut s).unwrap();
    assert_eq!(s.peek(), Some('t'));
    assert_eq!(s.position(), (3, 3));
}
