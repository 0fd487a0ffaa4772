use neco::kdl::number::{parse_keyword_number, parse_number};
use neco::kdl::scan::Scanner;
use neco::kdl::{KdlErrorKind, KdlNumber};

fn num(input: &str) -> KdlNumber {
    let mut s = Scanner::new(input);
    parse_number(&mut s).unwrap().unwrap()
}

fn kw_num(input: &str) -> KdlNumber {
    let mut s = Scanner::new(input);
    parse_keyword_number(&mut s).unwrap().unwrap()
}

fn num_err(input: &str) -> (usize, usize, KdlErrorKind) {
    let mut s = Scanner::new(input);
    let e = parse_number(&mut s).unwrap_err();
    (e.line(), e.col(), e.kind)
}

#[test]
fn decimal_integer() {
    let n = num("42 ");
    assert_eq!(n.raw, "42");
    assert_eq!(n.as_i64, Some(42));
}

#[test]
fn decimal_with_underscore() {
    let n = num("1_000 ");
    assert_eq!(n.raw, "1_000");
    assert_eq!(n.as_i64, Some(1000));
}

#[test]
fn decimal_float() {
    let n = num("1.23 ");
    assert_eq!(n.raw, "1.23");
    assert_eq!(n.as_i64, None);
}

#[test]
fn decimal_exponent() {
    let n = num("1.5e2 ");
    assert_eq!(n.raw, "1.5e2");
    assert_eq!(n.as_i64, None);
}

#[test]
fn hex_number() {
    assert_eq!(num("0xff ").as_i64, Some(255));
}

#[test]
fn octal_number() {
    assert_eq!(num("0o77 ").as_i64, Some(63));
}

#[test]
fn binary_number() {
    assert_eq!(num("0b1010 ").as_i64, Some(10));
}

#[test]
fn signed_number() {
    assert_eq!(num("-42 ").as_i64, Some(-42));
    assert_eq!(num("+42 ").as_i64, Some(42));
}

#[test]
fn signed_hex() {
    assert_eq!(num("-0xff ").as_i64, Some(-255));
}

#[test]
fn i64_limits() {
    assert_eq!(num("-9223372036854775808").as_i64, Some(i64::MIN));
    assert_eq!(num("9223372036854775807").as_i64, Some(i64::MAX));
    assert_eq!(num("9223372036854775808").as_i64, None);
    assert_eq!(num("-0x8000_0000_0000_0000").as_i64, Some(i64::MIN));
    assert_eq!(num("0x8000_0000_0000_0000").as_i64, None);
}

#[test]
fn keyword_inf() {
    let n = kw_num("#inf");
    assert_eq!(n.raw, "#inf");
    assert_eq!(n.as_i64, None);
}

#[test]
fn keyword_neg_inf() {
    assert_eq!(kw_num("#-inf").raw, "#-inf");
}

#[test]
fn keyword_nan() {
    assert_eq!(kw_num("#nan").raw, "#nan");
}

#[test]
fn keyword_number_absent() {
    let mut s = Scanner::new("#true");
    assert!(parse_keyword_number(&mut s).unwrap().is_none());
    assert_eq!(s.peek(), Some('#'));
}

#[test]
fn overflow_preserves_raw() {
    let n = num("99999999999999999999 ");
    assert_eq!(n.raw, "99999999999999999999");
    assert_eq!(n.as_i64, None);
}

#[test]
fn not_a_number() {
    let mut s = Scanner::new("foo ");
    assert!(parse_number(&mut s).unwrap().is_none());
}

#[test]
fn sign_only_not_a_number() {
    let mut s = Scanner::new("+ ");
    assert!(parse_number(&mut s).unwrap().is_none());
    assert_eq!(s.peek(), Some('+'));
}

#[test]
fn malformed_numbers() {
    assert_eq!(num_err("1."), (1, 3, KdlErrorKind::InvalidNumber));
    assert_eq!(num_err("1._7"), (1, 3, KdlErrorKind::InvalidNumber));
    assert_eq!(num_err("1e"), (1, 3, KdlErrorKind::InvalidNumber));
    assert_eq!(num_err("1e5e"), (1, 4, KdlErrorKind::InvalidNumber));
    assert_eq!(num_err("0n"), (1, 2, KdlErrorKind::InvalidNumber));
    assert_eq!(num_err("0x"), (1, 3, KdlErrorKind::InvalidNumber));
    assert_eq!(num_err("0x10g10"), (1, 5, KdlErrorKind::InvalidNumber));
}

#[test]
fn number_stops_before_dot_and_terminators() {
    let mut s = Scanner::new("1.5.3");
    let n = parse_number(&mut s).unwrap().unwrap();
    assert_eq!(n.raw, "1.5");
    assert_eq!(s.peek(), Some('.'));
    let mut s = Scanner::new("7;");
    assert_eq!(parse_number(&mut s).unwrap().unwrap().raw, "7");
    assert_eq!(s.peek(), Some(';'));
}
