//! Reading number literals: decimal (with fraction and exponent), prefixed
//! hexadecimal, octal and binary, and the keyword numbers `#inf`, `#-inf`
//! and `#nan`.
use vstd::prelude::*;
use super::number_form::{
    digit_val, lemma_radix_value_mono, radix_digit, radix_value, remove_underscores,
    strip_underscores, unsigned_part,
};
use super::quote::ascii_digit;
use super::scan::{
    char_at, error_at, identifier_char, is_identifier_char, lemma_walk_zero, step_on, walk, walked,
    Cursor, Scanner,
};
use super::value::{KdlError, KdlErrorKind, KdlNumber};

verus! {

/// What stands at a position where a number may begin.
pub enum NumberScan {
    /// No number begins here.
    NotNumber,
    /// A malformed number, reported at this position.
    Invalid(int),
    /// A number ending at `end`, in base `radix`, with a fraction or an
    /// exponent when `float`.
    Number { end: int, radix: nat, float: bool },
}

/// The first position at or after `p` that holds no decimal digit or `_`.
pub open spec fn int_end(s: Seq<char>, p: int) -> int
    decreases s.len() - p,
{
    if 0 <= p < s.len() && (ascii_digit(s[p]) || s[p] == '_') {
        int_end(s, p + 1)
    } else {
        p
    }
}

/// The first position at or after `p` that holds no digit of `radix` or `_`.
pub open spec fn radix_end(s: Seq<char>, p: int, radix: nat) -> int
    decreases s.len() - p,
{
    if 0 <= p < s.len() && (radix_digit(s[p], radix) || s[p] == '_') {
        radix_end(s, p + 1, radix)
    } else {
        p
    }
}

pub open spec fn is_digit_at(s: Seq<char>, p: int) -> bool {
    char_at(s, p) matches Some(c) && ascii_digit(c)
}

pub open spec fn is_exp_at(s: Seq<char>, p: int) -> bool {
    char_at(s, p) == Some('e') || char_at(s, p) == Some('E')
}

/// The radix named by the letter after a leading `0`: 16, 8, 2, or 0.
pub open spec fn prefix_letter_radix(c: Option<char>) -> nat {
    if c == Some('x') {
        16
    } else if c == Some('o') {
        8
    } else if c == Some('b') {
        2
    } else {
        0
    }
}

/// A prefixed number whose `0x`, `0o` or `0b` stands at `q`.
pub open spec fn scan_prefixed(s: Seq<char>, q: int, radix: nat) -> NumberScan {
    if !(char_at(s, q + 2) matches Some(c) && radix_digit(c, radix)) {
        NumberScan::Invalid(q + 2)
    } else {
        let e = radix_end(s, q + 3, radix);
        if char_at(s, e) matches Some(c) && identifier_char(c) {
            NumberScan::Invalid(e)
        } else {
            NumberScan::Number { end: e, radix, float: false }
        }
    }
}

/// A decimal number whose digits start at `q`: integer ('.' integer)?
/// exponent?, where no identifier character but `.` may follow.
pub open spec fn scan_decimal(s: Seq<char>, q: int) -> NumberScan {
    let i1 = int_end(s, q);
    if char_at(s, i1) == Some('.') && !is_digit_at(s, i1 + 1) {
        NumberScan::Invalid(i1 + 1)
    } else {
        let has_dot = char_at(s, i1) == Some('.');
        let i2 = if has_dot {
            int_end(s, i1 + 1)
        } else {
            i1
        };
        let j = if char_at(s, i2 + 1) == Some('+') || char_at(s, i2 + 1) == Some('-') {
            i2 + 2
        } else {
            i2 + 1
        };
        if is_exp_at(s, i2) && !is_digit_at(s, j) {
            NumberScan::Invalid(j)
        } else if is_exp_at(s, i2) && is_exp_at(s, int_end(s, j)) {
            NumberScan::Invalid(int_end(s, j))
        } else {
            let i3 = if is_exp_at(s, i2) {
                int_end(s, j)
            } else {
                i2
            };
            if char_at(s, i3) matches Some(c) && identifier_char(c) && c != '.' {
                NumberScan::Invalid(i3)
            } else {
                NumberScan::Number { end: i3, radix: 10, float: has_dot || is_exp_at(s, i2) }
            }
        }
    }
}

/// What stands at `p`: a number begins with a digit, or with a sign and a
/// digit.
pub open spec fn scan_number(s: Seq<char>, p: int) -> NumberScan {
    match char_at(s, p) {
        None => NumberScan::NotNumber,
        Some(ch) => {
            let is_sign = ch == '+' || ch == '-';
            let q = if is_sign {
                p + 1
            } else {
                p
            };
            if !is_sign && !ascii_digit(ch) {
                NumberScan::NotNumber
            } else if !is_digit_at(s, q) {
                NumberScan::NotNumber
            } else if s[q] == '0' && prefix_letter_radix(char_at(s, q + 1)) != 0 {
                scan_prefixed(s, q, prefix_letter_radix(char_at(s, q + 1)))
            } else {
                scan_decimal(s, q)
            }
        },
    }
}

/// The integer value of a number written as `raw` in base `radix`, when it
/// has no fraction or exponent and fits in an `i64`.
pub open spec fn number_i64(raw: Seq<char>, radix: nat, float: bool) -> Option<i64> {
    let clean = remove_underscores(raw);
    let body = unsigned_part(clean);
    let digits = if radix == 10 {
        body
    } else if body.len() >= 2 {
        body.skip(2)
    } else {
        Seq::empty()
    };
    let v = radix_value(digits, radix);
    let x: int = if clean.len() > 0 && clean[0] == '-' {
        -v
    } else {
        v as int
    };
    if float || x < i64::MIN || x > i64::MAX {
        None
    } else {
        Some(x as i64)
    }
}

/// The keyword number at `p`, with the position after it.
pub open spec fn keyword_number_end(s: Seq<char>, p: int) -> Option<int> {
    if char_at(s, p) != Some('#') {
        None
    } else if char_at(s, p + 1) == Some('i') && char_at(s, p + 2) == Some('n') && char_at(s, p + 3)
        == Some('f') {
        Some(p + 4)
    } else if char_at(s, p + 1) == Some('-') && char_at(s, p + 2) == Some('i') && char_at(s, p + 3)
        == Some('n') && char_at(s, p + 4) == Some('f') {
        Some(p + 5)
    } else if char_at(s, p + 1) == Some('n') && char_at(s, p + 2) == Some('a') && char_at(s, p + 3)
        == Some('n') {
        Some(p + 4)
    } else {
        None
    }
}

pub fn is_hex_digit(ch: char) -> (r: bool)
    ensures
        r == radix_digit(ch, 16),
{
    ('0' <= ch && ch <= '9') || ('a' <= ch && ch <= 'f') || ('A' <= ch && ch <= 'F')
}

pub fn is_octal_digit(ch: char) -> (r: bool)
    ensures
        r == radix_digit(ch, 8),
{
    '0' <= ch && ch <= '7'
}

pub fn is_binary_digit(ch: char) -> (r: bool)
    ensures
        r == radix_digit(ch, 2),
{
    ch == '0' || ch == '1'
}

fn is_valid_digit(ch: char, radix: u32) -> (r: bool)
    requires
        radix == 2 || radix == 8 || radix == 16,
    ensures
        r == radix_digit(ch, radix as nat),
{
    if radix == 16 {
        is_hex_digit(ch)
    } else if radix == 8 {
        is_octal_digit(ch)
    } else {
        is_binary_digit(ch)
    }
}

fn is_digit(ch: char) -> (r: bool)
    ensures
        r == ascii_digit(ch),
{
    '0' <= ch && ch <= '9'
}

/// Passes decimal digits and underscores.
fn consume_integer(s: &mut Scanner, Ghost(t): Ghost<Seq<char>>, Ghost(c0): Ghost<Cursor>)
    requires
        walked(old(s), t, c0),
    ensures
        walked(final(s), t, c0),
        final(s).cursor().pos == int_end(t, old(s).cursor().pos),
{
    let ghost p0 = s.cursor().pos;
    loop
        invariant
            walked(s, t, c0),
            p0 <= s.cursor().pos,
            int_end(t, p0) == int_end(t, s.cursor().pos),
        ensures
            walked(s, t, c0),
            s.cursor().pos == int_end(t, p0),
        decreases t.len() - s.cursor().pos,
    {
        match s.peek() {
            Some(ch) => {
                if is_digit(ch) || ch == '_' {
                    step_on(s, Ghost(t), Ghost(c0));
                } else {
                    break;
                }
            },
            None => break,
        }
    }
}

/// Passes digits of `radix` and underscores.
fn consume_radix_digits(
    s: &mut Scanner,
    radix: u32,
    Ghost(t): Ghost<Seq<char>>,
    Ghost(c0): Ghost<Cursor>,
)
    requires
        radix == 2 || radix == 8 || radix == 16,
        walked(old(s), t, c0),
    ensures
        walked(final(s), t, c0),
        final(s).cursor().pos == radix_end(t, old(s).cursor().pos, radix as nat),
{
    let ghost p0 = s.cursor().pos;
    loop
        invariant
            radix == 2 || radix == 8 || radix == 16,
            walked(s, t, c0),
            p0 <= s.cursor().pos,
            radix_end(t, p0, radix as nat) == radix_end(t, s.cursor().pos, radix as nat),
        ensures
            walked(s, t, c0),
            s.cursor().pos == radix_end(t, p0, radix as nat),
        decreases t.len() - s.cursor().pos,
    {
        match s.peek() {
            Some(ch) => {
                if is_valid_digit(ch, radix) || ch == '_' {
                    step_on(s, Ghost(t), Ghost(c0));
                } else {
                    break;
                }
            },
            None => break,
        }
    }
}

/// The integer value of a number written as `raw` without fraction or
/// exponent, when it fits in an `i64`.
fn interpret_integer(raw: &[char], radix: u32) -> (r: Option<i64>)
    requires
        radix == 2 || radix == 8 || radix == 10 || radix == 16,
    ensures
        r == number_i64(raw@, radix as nat, false),
{
    let clean = strip_underscores(raw);
    let negative = clean.len() > 0 && clean[0] == '-';
    let sign: usize = if clean.len() > 0 && (clean[0] == '-' || clean[0] == '+') {
        1
    } else {
        0
    };
    let ghost body = unsigned_part(clean@);
    proof {
        assert(body =~= clean@.skip(sign as int));
    }
    let start: usize = if radix == 10 {
        sign
    } else if sign + 2 <= clean.len() {
        sign + 2
    } else {
        clean.len()
    };
    let ghost digits = if radix == 10 {
        body
    } else if body.len() >= 2 {
        body.skip(2)
    } else {
        Seq::<char>::empty()
    };
    proof {
        assert(digits =~= clean@.skip(start as int));
    }
    let mut acc: u128 = 0;
    let mut k: usize = start;
    proof {
        assert(digits.take(0) =~= Seq::<char>::empty());
    }
    while k < clean.len()
        invariant
            radix == 2 || radix == 8 || radix == 10 || radix == 16,
            clean@ == remove_underscores(raw@),
            body == unsigned_part(clean@),
            digits == (if radix == 10 {
                body
            } else if body.len() >= 2 {
                body.skip(2)
            } else {
                Seq::<char>::empty()
            }),
            negative == (clean@.len() > 0 && clean@[0] == '-'),
            digits == clean@.skip(start as int),
            start <= k <= clean@.len(),
            acc <= 0x8000_0000_0000_0000,
            acc == radix_value(digits.take(k - start), radix as nat),
        decreases clean@.len() - k,
    {
        proof {
            assert(digits.take(k - start + 1).drop_last() =~= digits.take(k - start));
            assert(digits.take(k - start + 1).last() == clean@[k as int]);
        }
        let d = digit_of(clean[k]);
        proof {
            assert(acc * (radix as u128) <= 0x8000_0000_0000_0000 * 16) by (nonlinear_arith)
                requires
                    acc <= 0x8000_0000_0000_0000,
                    radix <= 16,
            ;
        }
        acc = acc * (radix as u128) + (d as u128);
        k = k + 1;
        if acc > 0x8000_0000_0000_0000 {
            proof {
                assert(acc == radix_value(digits.take(k - start), radix as nat));
                lemma_radix_value_mono(digits, k - start, radix as nat);
                assert(radix_value(digits, radix as nat) > 0x8000_0000_0000_0000);
            }
            return None;
        }
    }
    proof {
        assert(digits.take(clean@.len() - start) =~= digits);
    }
    if negative {
        let x: i128 = -(acc as i128);
        Some(x as i64)
    } else if acc <= 0x7FFF_FFFF_FFFF_FFFF {
        Some(acc as i64)
    } else {
        None
    }
}

/// The value of a digit character (0 for anything else).
fn digit_of(c: char) -> (r: u32)
    ensures
        r == digit_val(c),
        r < 16,
{
    if '0' <= c && c <= '9' {
        c as u32 - 48
    } else if 'a' <= c && c <= 'f' {
        c as u32 - 87
    } else if 'A' <= c && c <= 'F' {
        c as u32 - 55
    } else {
        0
    }
}

/// The result of reading a number from cursor `c0` of text `t`, where the
/// scanner stands afterwards.
pub open spec fn number_outcome(
    t: Seq<char>,
    c0: Cursor,
    scan: NumberScan,
    r: Result<Option<KdlNumber>, KdlError>,
    after: Cursor,
) -> bool {
    match scan {
        NumberScan::NotNumber => r matches Ok(None) && after == c0,
        NumberScan::Invalid(q) => after == walk(t, c0, q) && r == Err::<Option<KdlNumber>, KdlError>(
            error_at(walk(t, c0, q), KdlErrorKind::InvalidNumber),
        ),
        NumberScan::Number { end, radix, float } => after == walk(t, c0, end) && (r matches Ok(
            Some(n),
        ) && n.raw@ == t.subrange(c0.pos, end) && n.as_i64 == number_i64(n.raw@, radix, float)),
    }
}

/// Reads a prefixed number whose `0` stands at the scanner's position.
fn parse_prefixed(
    s: &mut Scanner,
    start: usize,
    radix: u32,
    Ghost(t): Ghost<Seq<char>>,
    Ghost(c0): Ghost<Cursor>,
) -> (r: Result<Option<KdlNumber>, KdlError>)
    requires
        radix == 2 || radix == 8 || radix == 16,
        walked(old(s), t, c0),
        start == c0.pos,
        old(s).cursor().pos + 1 < t.len(),
    ensures
        walked(final(s), t, c0),
        number_outcome(
            t,
            c0,
            scan_prefixed(t, old(s).cursor().pos, radix as nat),
            r,
            final(s).cursor(),
        ),
{
    let ghost q = s.cursor().pos;
    step_on(s, Ghost(t), Ghost(c0));
    step_on(s, Ghost(t), Ghost(c0));
    match s.peek() {
        Some(ch) => {
            if is_valid_digit(ch, radix) {
                step_on(s, Ghost(t), Ghost(c0));
            } else {
                return Err(s.make_error(KdlErrorKind::InvalidNumber));
            }
        },
        None => {
            return Err(s.make_error(KdlErrorKind::InvalidNumber));
        },
    }
    consume_radix_digits(s, radix, Ghost(t), Ghost(c0));
    if let Some(ch) = s.peek() {
        if is_identifier_char(ch) {
            return Err(s.make_error(KdlErrorKind::InvalidNumber));
        }
    }
    let end = s.offset();
    let raw = s.slice(start, end);
    let raw_chars = s.slice_chars(start, end);
    let as_i64 = interpret_integer(raw_chars.as_slice(), radix);
    Ok(Some(KdlNumber { raw, as_i64 }))
}

/// Reads a number literal at the position: `Ok(None)`, passing nothing,
/// where none begins; an `InvalidNumber` error where one begins but is
/// malformed.
pub fn parse_number(s: &mut Scanner) -> (r: Result<Option<KdlNumber>, KdlError>)
    requires
        old(s).wf(),
    ensures
        final(s).wf(),
        final(s).text() == old(s).text(),
        number_outcome(
            old(s).text(),
            old(s).cursor(),
            scan_number(old(s).text(), old(s).cursor().pos),
            r,
            final(s).cursor(),
        ),
{
    let ghost t = s.text();
    let ghost c0 = s.cursor();
    proof {
        lemma_walk_zero(t, c0);
    }
    let ch = match s.peek() {
        Some(ch) => ch,
        None => {
            return Ok(None);
        },
    };
    let is_sign = ch == '+' || ch == '-';
    if !is_sign && !is_digit(ch) {
        return Ok(None);
    }
    let saved = s.save();
    let start = s.offset();
    if is_sign {
        step_on(s, Ghost(t), Ghost(c0));
    }
    match s.peek() {
        Some(ch2) => {
            if !is_digit(ch2) {
                s.restore(saved);
                return Ok(None);
            }
        },
        None => {
            s.restore(saved);
            return Ok(None);
        },
    }
    if s.peek() == Some('0') {
        match s.peek_next() {
            Some(letter) => {
                if letter == 'x' {
                    return parse_prefixed(s, start, 16, Ghost(t), Ghost(c0));
                } else if letter == 'o' {
                    return parse_prefixed(s, start, 8, Ghost(t), Ghost(c0));
                } else if letter == 'b' {
                    return parse_prefixed(s, start, 2, Ghost(t), Ghost(c0));
                }
            },
            None => {},
        }
    }
    let ghost q = s.cursor().pos;
    consume_integer(s, Ghost(t), Ghost(c0));
    let mut has_dot = false;
    if s.peek() == Some('.') {
        match s.peek_next() {
            Some(next) => {
                if is_digit(next) {
                    step_on(s, Ghost(t), Ghost(c0));
                    consume_integer(s, Ghost(t), Ghost(c0));
                    has_dot = true;
                } else {
                    step_on(s, Ghost(t), Ghost(c0));
                    return Err(s.make_error(KdlErrorKind::InvalidNumber));
                }
            },
            None => {
                step_on(s, Ghost(t), Ghost(c0));
                return Err(s.make_error(KdlErrorKind::InvalidNumber));
            },
        }
    }
    let mut has_exp = false;
    if s.peek() == Some('e') || s.peek() == Some('E') {
        step_on(s, Ghost(t), Ghost(c0));
        if s.peek() == Some('+') || s.peek() == Some('-') {
            step_on(s, Ghost(t), Ghost(c0));
        }
        match s.peek() {
            Some(d) => {
                if !is_digit(d) {
                    return Err(s.make_error(KdlErrorKind::InvalidNumber));
                }
            },
            None => {
                return Err(s.make_error(KdlErrorKind::InvalidNumber));
            },
        }
        consume_integer(s, Ghost(t), Ghost(c0));
        if s.peek() == Some('e') || s.peek() == Some('E') {
            return Err(s.make_error(KdlErrorKind::InvalidNumber));
        }
        has_exp = true;
    }
    if let Some(next) = s.peek() {
        if is_identifier_char(next) && next != '.' {
            return Err(s.make_error(KdlErrorKind::InvalidNumber));
        }
    }
    let end = s.offset();
    let raw = s.slice(start, end);
    let as_i64 = if has_dot || has_exp {
        None
    } else {
        let raw_chars = s.slice_chars(start, end);
        interpret_integer(raw_chars.as_slice(), 10)
    };
    Ok(Some(KdlNumber { raw, as_i64 }))
}

/// Reads a keyword number (`#inf`, `#-inf`, `#nan`) at the position;
/// `Ok(None)`, passing nothing, where none stands.
pub fn parse_keyword_number(s: &mut Scanner) -> (r: Result<Option<KdlNumber>, KdlError>)
    requires
        old(s).wf(),
    ensures
        final(s).wf(),
        final(s).text() == old(s).text(),
        match keyword_number_end(old(s).text(), old(s).cursor().pos) {
            None => r matches Ok(None) && final(s).cursor() == old(s).cursor(),
            Some(end) => final(s).cursor() == walk(old(s).text(), old(s).cursor(), end) && (
            r matches Ok(Some(n)) && n.raw@ == old(s).text().subrange(old(s).cursor().pos, end)
                && n.as_i64 is None),
        },
{
    let ghost t = s.text();
    let ghost c0 = s.cursor();
    proof {
        lemma_walk_zero(t, c0);
    }
    if s.peek() != Some('#') {
        return Ok(None);
    }
    let saved = s.save();
    let start = s.offset();
    step_on(s, Ghost(t), Ghost(c0));
    let first = s.peek();
    if first == Some('i') {
        step_on(s, Ghost(t), Ghost(c0));
        if s.peek() == Some('n') {
            step_on(s, Ghost(t), Ghost(c0));
            if s.peek() == Some('f') {
                step_on(s, Ghost(t), Ghost(c0));
                let end = s.offset();
                let raw = s.slice(start, end);
                return Ok(Some(KdlNumber { raw, as_i64: None }));
            }
        }
        s.restore(saved);
        Ok(None)
    } else if first == Some('-') {
        step_on(s, Ghost(t), Ghost(c0));
        if s.peek() == Some('i') {
            step_on(s, Ghost(t), Ghost(c0));
            if s.peek() == Some('n') {
                step_on(s, Ghost(t), Ghost(c0));
                if s.peek() == Some('f') {
                    step_on(s, Ghost(t), Ghost(c0));
                    let end = s.offset();
                    let raw = s.slice(start, end);
                    return Ok(Some(KdlNumber { raw, as_i64: None }));
                }
            }
        }
        s.restore(saved);
        Ok(None)
    } else if first == Some('n') {
        step_on(s, Ghost(t), Ghost(c0));
        if s.peek() == Some('a') {
            step_on(s, Ghost(t), Ghost(c0));
            if s.peek() == Some('n') {
                step_on(s, Ghost(t), Ghost(c0));
                let end = s.offset();
                let raw = s.slice(start, end);
                return Ok(Some(KdlNumber { raw, as_i64: None }));
            }
        }
        s.restore(saved);
        Ok(None)
    } else {
        s.restore(saved);
        Ok(None)
    }
}

} // verus!
