use neco::kdl::scan::Scanner;
use neco::kdl::syntax::{
    skip_node_terminator, skip_version_marker, try_consume_entry_slashdash, try_consume_literal,
    try_consume_slashdash, try_parse_keyword,
};
use neco::kdl::{KdlErrorKind, KdlValue};

#[test]
fn version_marker_is_passed() {
    let mut s = Scanner::new("/- kdl-version 2\nnode");
    skip_version_marker(&mut s).unwrap();
    assert_eq!(s.peek(), Some('n'));
    assert_eq!(s.position(), (2, 1));
}

#[test]
fn version_marker_at_end_of_text() {
    let mut s = Scanner::new("/-kdl-version  1  ");
    skip_version_marker(&mut s).unwrap();
    assert!(s.is_eof());
}

#[test]
fn version_marker_absent_leaves_position() {
    for text in ["/- kdl-version 3\n", "/- node", "/-kdl-version2\n", "node", "/- kdl-version 2 x\n"] {
        let mut s = Scanner::new(text);
        skip_version_marker(&mut s).unwrap();
        assert_eq!(s.offset(), 0, "{text}");
        assert_eq!(s.position(), (1, 1));
    }
}

#[test]
fn literal_is_consumed_only_when_whole() {
    let mut s = Scanner::new("trux");
    assert!(!try_consume_literal(&mut s, "true"));
    assert_eq!(s.offset(), 0);
    let mut s = Scanner::new("true!");
    assert!(try_consume_literal(&mut s, "true"));
    assert_eq!(s.peek(), Some('!'));
}

#[test]
fn keywords_are_read() {
    let mut s = Scanner::new("#true #false #null #nope");
    assert_eq!(try_parse_keyword(&mut s).unwrap(), Some(KdlValue::Bool(true)));
    s.advance();
    assert_eq!(try_parse_keyword(&mut s).unwrap(), Some(KdlValue::Bool(false)));
    s.advance();
    assert_eq!(try_parse_keyword(&mut s).unwrap(), Some(KdlValue::Null));
    s.advance();
    assert_eq!(try_parse_keyword(&mut s).unwrap(), None);
    assert_eq!(s.peek(), Some('#'));
}

#[test]
fn slashdash_passes_line_space() {
    let mut s = Scanner::new("/- // c\n  node");
    assert!(try_consume_slashdash(&mut s).unwrap());
    assert_eq!(s.peek(), Some('n'));
    let mut s = Scanner::new("/x");
    assert!(!try_consume_slashdash(&mut s).unwrap());
    assert_eq!(s.peek(), Some('/'));
    let mut s = Scanner::new("/- /* open");
    assert_eq!(
        try_consume_slashdash(&mut s).unwrap_err().kind,
        KdlErrorKind::UnclosedBlockComment
    );
}

#[test]
fn entry_slashdash_before_terminator_is_invalid() {
    for text in ["/- }", "/- ;", "/-"] {
        let mut s = Scanner::new(text);
        assert_eq!(
            try_consume_entry_slashdash(&mut s).unwrap_err().kind,
            KdlErrorKind::InvalidSlashdash
        );
    }
    let mut s = Scanner::new("/- 1");
    assert!(try_consume_entry_slashdash(&mut s).unwrap());
    assert_eq!(s.peek(), Some('1'));
}

#[test]
fn node_terminators() {
    let mut s = Scanner::new(";x");
    skip_node_terminator(&mut s, false).unwrap();
    assert_eq!(s.peek(), Some('x'));
    let mut s = Scanner::new("// note\r\nx");
    skip_node_terminator(&mut s, false).unwrap();
    assert_eq!(s.peek(), Some('x'));
    assert_eq!(s.position(), (2, 1));
    let mut s = Scanner::new("}");
    skip_node_terminator(&mut s, true).unwrap();
    assert_eq!(s.peek(), Some('}'));
    let mut s = Scanner::new("}");
    let err = skip_node_terminator(&mut s, false).unwrap_err();
    assert_eq!(err.kind, KdlErrorKind::UnexpectedChar('}'));
    let mut s = Scanner::new("");
    assert!(skip_node_terminator(&mut s, false).is_ok());
}
