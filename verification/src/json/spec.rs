//! The JSON grammar accepted by the parser, with the exact error reported
//! for each rejected input, stated as functions on the input bytes.
use vstd::prelude::*;
use super::error::{ParseError, ParseErrorKind};
use super::value::Json;

verus! {

/// Deepest array/object nesting that the parser accepts.
pub const MAX_DEPTH: usize = 128;

pub open spec fn perr(kind: ParseErrorKind, pos: int) -> ParseError {
    ParseError { kind, position: pos as usize }
}

pub open spec fn is_ws(b: u8) -> bool {
    b == 0x20 || b == 0x09 || b == 0x0A || b == 0x0D
}

pub open spec fn is_digit(b: u8) -> bool {
    0x30 <= b <= 0x39
}

pub open spec fn is_hex(b: u8) -> bool {
    (0x30 <= b <= 0x39) || (0x61 <= b <= 0x66) || (0x41 <= b <= 0x46)
}

pub open spec fn hex_val(b: u8) -> u32 {
    if 0x30 <= b <= 0x39 {
        (b - 0x30) as u32
    } else if 0x61 <= b <= 0x66 {
        (b - 0x61 + 10) as u32
    } else {
        (b - 0x41 + 10) as u32
    }
}

/// Number of whitespace bytes starting at `p`.
pub open spec fn ws_len(s: Seq<u8>, p: int) -> nat
    decreases s.len() - p,
{
    if 0 <= p < s.len() && is_ws(s[p]) {
        1 + ws_len(s, p + 1)
    } else {
        0
    }
}

/// First position at or after `p` that is not whitespace.
pub open spec fn skip_ws(s: Seq<u8>, p: int) -> int {
    p + ws_len(s, p)
}

/// Number of ASCII digits starting at `p`.
pub open spec fn digits_len(s: Seq<u8>, p: int) -> nat
    decreases s.len() - p,
{
    if 0 <= p < s.len() && is_digit(s[p]) {
        1 + digits_len(s, p + 1)
    } else {
        0
    }
}

/// Matching `lit[i..]` at position `p + i`; the result is the position after the literal.
pub open spec fn literal_from(s: Seq<u8>, p: int, lit: Seq<u8>, i: int) -> Result<int, ParseError>
    decreases lit.len() - i,
{
    if i >= lit.len() || i < 0 {
        Ok(p + lit.len())
    } else if p + i >= s.len() {
        Err(perr(ParseErrorKind::UnexpectedEnd, p + i))
    } else if s[p + i] != lit[i] {
        Err(perr(ParseErrorKind::UnexpectedCharacter(s[p + i]), p + i))
    } else {
        literal_from(s, p, lit, i + 1)
    }
}

pub open spec fn literal(s: Seq<u8>, p: int, lit: Seq<u8>) -> Result<int, ParseError> {
    literal_from(s, p, lit, 0)
}

/// The position just after a number literal starting at `p` (or the error).
pub open spec fn number_end(s: Seq<u8>, p: int) -> Result<int, ParseError> {
    let a = if p < s.len() && s[p] == 0x2D { p + 1 } else { p };
    if a >= s.len() || !is_digit(s[a]) {
        Err(perr(ParseErrorKind::InvalidNumber, a))
    } else {
        let b = if s[a] == 0x30 { a + 1 } else { a + 1 + digits_len(s, a + 1) };
        let frac = if b < s.len() && s[b] == 0x2E {
            let f = b + 1 + digits_len(s, b + 1);
            if f == b + 1 {
                Err(perr(ParseErrorKind::InvalidNumber, f))
            } else {
                Ok(f)
            }
        } else {
            Ok(b)
        };
        match frac {
            Err(e) => Err(e),
            Ok(c) => if c < s.len() && (s[c] == 0x65 || s[c] == 0x45) {
                let d = if c + 1 < s.len() && (s[c + 1] == 0x2B || s[c + 1] == 0x2D) {
                    c + 2
                } else {
                    c + 1
                };
                let e = d + digits_len(s, d);
                if e == d {
                    Err(perr(ParseErrorKind::InvalidNumber, e))
                } else {
                    Ok(e)
                }
            } else {
                Ok(c)
            },
        }
    }
}

/// The bytes `s[a..b]` read as characters (numbers are ASCII).
pub open spec fn ascii_chars(s: Seq<u8>, a: int, b: int) -> Seq<char> {
    Seq::new((b - a) as nat, |i: int| s[a + i] as char)
}

/// Four hex digits at `t + i ..`, accumulated into `acc`.
pub open spec fn hex4_from(s: Seq<u8>, t: int, i: int, acc: u32) -> Result<u32, ParseError>
    decreases 4 - i,
{
    if i >= 4 || i < 0 {
        Ok(acc)
    } else if t + i >= s.len() {
        Err(perr(ParseErrorKind::InvalidUnicodeEscape, t + i))
    } else if !is_hex(s[t + i]) {
        Err(perr(ParseErrorKind::InvalidUnicodeEscape, t + i))
    } else {
        hex4_from(s, t, i + 1, (acc * 16 + hex_val(s[t + i])) as u32)
    }
}

pub open spec fn hex4(s: Seq<u8>, t: int) -> Result<u32, ParseError> {
    hex4_from(s, t, 0, 0)
}

pub open spec fn is_scalar(cp: u32) -> bool {
    cp <= 0x10FFFF && !(0xD800 <= cp <= 0xDFFF)
}

/// A `\u` escape whose four hex digits start at `t`.
pub open spec fn unicode_escape(s: Seq<u8>, t: int) -> Result<(char, int), ParseError> {
    match hex4(s, t) {
        Err(e) => Err(e),
        Ok(cp) => {
            let u = t + 4;
            if 0xD800 <= cp <= 0xDBFF {
                if u >= s.len() {
                    Err(perr(ParseErrorKind::InvalidUnicodeEscape, u))
                } else if s[u] != 0x5C {
                    Err(perr(ParseErrorKind::InvalidUnicodeEscape, u + 1))
                } else if u + 1 >= s.len() {
                    Err(perr(ParseErrorKind::InvalidUnicodeEscape, u + 1))
                } else if s[u + 1] != 0x75 {
                    Err(perr(ParseErrorKind::InvalidUnicodeEscape, u + 2))
                } else {
                    match hex4(s, u + 2) {
                        Err(e) => Err(e),
                        Ok(low) => if !(0xDC00 <= low <= 0xDFFF) {
                            Err(perr(ParseErrorKind::InvalidUnicodeEscape, u + 6))
                        } else {
                            let combined = ((cp - 0xD800) * 0x400 + (low - 0xDC00) + 0x10000) as u32;
                            if is_scalar(combined) {
                                Ok((combined as char, u + 6))
                            } else {
                                Err(perr(ParseErrorKind::InvalidUnicodeEscape, u + 6))
                            }
                        },
                    }
                }
            } else if 0xDC00 <= cp <= 0xDFFF {
                Err(perr(ParseErrorKind::InvalidUnicodeEscape, u))
            } else if is_scalar(cp) {
                Ok((cp as char, u))
            } else {
                Err(perr(ParseErrorKind::InvalidUnicodeEscape, u))
            }
        },
    }
}

/// The escape sequence whose letter is at `r` (just after the backslash).
pub open spec fn escape(s: Seq<u8>, r: int) -> Result<(char, int), ParseError> {
    if r >= s.len() || r < 0 {
        Err(perr(ParseErrorKind::UnexpectedEnd, r))
    } else {
        let b = s[r];
        if b == 0x22 {
            Ok(('"', r + 1))
        } else if b == 0x5C {
            Ok(('\\', r + 1))
        } else if b == 0x2F {
            Ok(('/', r + 1))
        } else if b == 0x62 {
            Ok(('\u{0008}', r + 1))
        } else if b == 0x66 {
            Ok(('\u{000C}', r + 1))
        } else if b == 0x6E {
            Ok(('\n', r + 1))
        } else if b == 0x72 {
            Ok(('\r', r + 1))
        } else if b == 0x74 {
            Ok(('\t', r + 1))
        } else if b == 0x75 {
            unicode_escape(s, r + 1)
        } else {
            Err(perr(ParseErrorKind::InvalidEscape, r))
        }
    }
}

/// Width of the UTF-8 sequence that a lead byte announces (0: not a lead byte).
pub open spec fn utf8_width(b: u8) -> int {
    if b < 0x80 {
        1
    } else if 0xC2 <= b <= 0xDF {
        2
    } else if 0xE0 <= b <= 0xEF {
        3
    } else if 0xF0 <= b <= 0xF4 {
        4
    } else {
        0
    }
}

pub open spec fn is_cont(b: u8) -> bool {
    0x80 <= b <= 0xBF
}

/// Well-formed multi-byte UTF-8 sequences (no overlong forms, no surrogates,
/// nothing above U+10FFFF).
pub open spec fn valid_utf8_seq(bs: Seq<u8>) -> bool {
    if bs.len() == 2 {
        0xC2 <= bs[0] <= 0xDF && is_cont(bs[1])
    } else if bs.len() == 3 {
        (if bs[0] == 0xE0 {
            0xA0 <= bs[1] <= 0xBF
        } else if (0xE1 <= bs[0] <= 0xEC) || (0xEE <= bs[0] <= 0xEF) {
            is_cont(bs[1])
        } else if bs[0] == 0xED {
            0x80 <= bs[1] <= 0x9F
        } else {
            false
        }) && is_cont(bs[2])
    } else if bs.len() == 4 {
        (if bs[0] == 0xF0 {
            0x90 <= bs[1] <= 0xBF
        } else if 0xF1 <= bs[0] <= 0xF3 {
            is_cont(bs[1])
        } else if bs[0] == 0xF4 {
            0x80 <= bs[1] <= 0x8F
        } else {
            false
        }) && is_cont(bs[2]) && is_cont(bs[3])
    } else {
        false
    }
}

/// The code point that a well-formed multi-byte sequence encodes.
pub open spec fn utf8_decode(bs: Seq<u8>) -> u32 {
    if bs.len() == 2 {
        (((bs[0] & 0x1F) as u32) << 6u32) | ((bs[1] & 0x3F) as u32)
    } else if bs.len() == 3 {
        (((bs[0] & 0x0F) as u32) << 12u32) | (((bs[1] & 0x3F) as u32) << 6u32) | ((bs[2]
            & 0x3F) as u32)
    } else {
        (((bs[0] & 0x07) as u32) << 18u32) | (((bs[1] & 0x3F) as u32) << 12u32) | (((bs[2]
            & 0x3F) as u32) << 6u32) | ((bs[3] & 0x3F) as u32)
    }
}

/// The rest of a string literal from position `q`, with `acc` read so far.
/// The result is the decoded text and the position after the closing quote.
pub open spec fn string_body(s: Seq<u8>, q: int, acc: Seq<char>) -> Result<(Seq<char>, int), ParseError>
    decreases s.len() - q,
{
    if q >= s.len() || q < 0 {
        Err(perr(ParseErrorKind::UnexpectedEnd, q))
    } else {
        let b = s[q];
        if b == 0x22 {
            Ok((acc, q + 1))
        } else if b == 0x5C {
            match escape(s, q + 1) {
                Err(e) => Err(e),
                Ok((c, q2)) => {
                    proof {
                        lemma_escape_advances(s, q + 1);
                    }
                    string_body(s, q2, acc.push(c))
                },
            }
        } else if b < 0x20 {
            Err(perr(ParseErrorKind::UnexpectedCharacter(b), q))
        } else {
            let w = utf8_width(b);
            if w == 0 {
                Err(perr(ParseErrorKind::InvalidUtf8, q + 1))
            } else if w == 1 {
                string_body(s, q + 1, acc.push(b as char))
            } else if q + w > s.len() {
                Err(perr(ParseErrorKind::InvalidUtf8, s.len() as int))
            } else if !valid_utf8_seq(s.subrange(q, q + w)) {
                Err(perr(ParseErrorKind::InvalidUtf8, q + w))
            } else {
                let cp = utf8_decode(s.subrange(q, q + w));
                if is_scalar(cp) {
                    string_body(s, q + w, acc.push(cp as char))
                } else {
                    Err(perr(ParseErrorKind::InvalidUtf8, q + w))
                }
            }
        }
    }
}

/// A string literal whose opening quote is expected at `p`.
pub open spec fn string_literal(s: Seq<u8>, p: int) -> Result<(Seq<char>, int), ParseError> {
    if p >= s.len() || p < 0 {
        Err(perr(ParseErrorKind::UnexpectedEnd, p))
    } else if s[p] != 0x22 {
        Err(perr(ParseErrorKind::UnexpectedCharacter(s[p]), p))
    } else {
        string_body(s, p + 1, Seq::empty())
    }
}

/// A JSON value starting at `pos` (after optional whitespace), at nesting `depth`.
pub proof fn lemma_ws_len_bound(s: Seq<u8>, p: int)
    ensures
        0 <= p <= s.len() ==> p + ws_len(s, p) <= s.len(),
    decreases s.len() - p,
{
    if 0 <= p < s.len() && is_ws(s[p]) {
        lemma_ws_len_bound(s, p + 1);
    }
}

pub proof fn lemma_digits_len_bound(s: Seq<u8>, p: int)
    ensures
        0 <= p <= s.len() ==> p + digits_len(s, p) <= s.len(),
    decreases s.len() - p,
{
    if 0 <= p < s.len() && is_digit(s[p]) {
        lemma_digits_len_bound(s, p + 1);
    }
}

pub proof fn lemma_hex4_from_ok(s: Seq<u8>, t: int, i: int, acc: u32)
    requires
        0 <= i <= 4,
        0 <= t,
        i > 0 ==> t + i <= s.len(),
    ensures
        hex4_from(s, t, i, acc) is Ok ==> t + 4 <= s.len(),
    decreases 4 - i,
{
    if i < 4 && t + i < s.len() && is_hex(s[t + i]) {
        lemma_hex4_from_ok(s, t, i + 1, (acc * 16 + hex_val(s[t + i])) as u32);
    }
}

pub proof fn lemma_escape_advances(s: Seq<u8>, r: int)
    requires
        0 <= r,
    ensures
        escape(s, r) matches Ok((c, q)) ==> r < q <= s.len(),
{
    if 0 <= r < s.len() && s[r] == 0x75 {
        lemma_hex4_from_ok(s, r + 1, 0, 0);
        let u = r + 5;
        if u + 1 < s.len() {
            lemma_hex4_from_ok(s, u + 2, 0, 0);
        }
    }
}

pub open spec fn value(s: Seq<u8>, pos: int, depth: int) -> Result<(Json, int), ParseError>
    decreases s.len() - pos, 1int,
{
    let p = skip_ws(s, pos);
    if p >= s.len() || pos < 0 {
        Err(perr(ParseErrorKind::UnexpectedEnd, p))
    } else {
        let b = s[p];
        if b == 0x6E {
            match literal(s, p, seq![0x6Eu8, 0x75u8, 0x6Cu8, 0x6Cu8]) {
                Ok(q) => Ok((Json::Null, q)),
                Err(e) => Err(e),
            }
        } else if b == 0x74 {
            match literal(s, p, seq![0x74u8, 0x72u8, 0x75u8, 0x65u8]) {
                Ok(q) => Ok((Json::Bool(true), q)),
                Err(e) => Err(e),
            }
        } else if b == 0x66 {
            match literal(s, p, seq![0x66u8, 0x61u8, 0x6Cu8, 0x73u8, 0x65u8]) {
                Ok(q) => Ok((Json::Bool(false), q)),
                Err(e) => Err(e),
            }
        } else if b == 0x22 {
            match string_literal(s, p) {
                Ok((t, q)) => Ok((Json::Str(t), q)),
                Err(e) => Err(e),
            }
        } else if b == 0x5B {
            array(s, p, depth)
        } else if b == 0x7B {
            object(s, p, depth)
        } else if b == 0x2D || is_digit(b) {
            match number_end(s, p) {
                Ok(q) => Ok((Json::Number(ascii_chars(s, p, q)), q)),
                Err(e) => Err(e),
            }
        } else {
            Err(perr(ParseErrorKind::UnexpectedCharacter(b), p))
        }
    }
}

/// An array whose `[` is expected at `p`.
pub open spec fn array(s: Seq<u8>, p: int, depth: int) -> Result<(Json, int), ParseError>
    decreases s.len() - p, 0int,
{
    let d = depth + 1;
    if p >= s.len() || p < 0 {
        Err(perr(ParseErrorKind::UnexpectedEnd, p))
    } else if s[p] != 0x5B {
        Err(perr(ParseErrorKind::UnexpectedCharacter(s[p]), p))
    } else if d > MAX_DEPTH {
        Err(perr(ParseErrorKind::NestingTooDeep, p + 1))
    } else {
        let q = skip_ws(s, p + 1);
        proof {
            lemma_ws_len_bound(s, p + 1);
        }
        if q < s.len() && s[q] == 0x5D {
            Ok((Json::Array(Seq::empty()), q + 1))
        } else {
            array_items(s, q, d, Seq::empty())
        }
    }
}

/// Array elements from `q` on, with `acc` read so far.
pub open spec fn array_items(s: Seq<u8>, q: int, d: int, acc: Seq<Json>) -> Result<(Json, int), ParseError>
    decreases s.len() - q, 2int,
{
    if q > s.len() || q < 0 {
        Err(perr(ParseErrorKind::UnexpectedEnd, q))
    } else {
        match value(s, q, d) {
            Err(e) => Err(e),
            Ok((v, q1)) => {
                let q2 = skip_ws(s, q1);
                if q2 >= s.len() || q2 < 0 {
                    Err(perr(ParseErrorKind::UnexpectedEnd, q2))
                } else if s[q2] == 0x2C {
                    if q < q2 + 1 <= s.len() {
                        array_items(s, q2 + 1, d, acc.push(v))
                    } else {
                        Err(perr(ParseErrorKind::UnexpectedEnd, q2))
                    }
                } else if s[q2] == 0x5D {
                    Ok((Json::Array(acc.push(v)), q2 + 1))
                } else {
                    Err(perr(ParseErrorKind::UnexpectedCharacter(s[q2]), q2))
                }
            },
        }
    }
}

/// An object whose `{` is expected at `p`.
pub open spec fn object(s: Seq<u8>, p: int, depth: int) -> Result<(Json, int), ParseError>
    decreases s.len() - p, 0int,
{
    let d = depth + 1;
    if p >= s.len() || p < 0 {
        Err(perr(ParseErrorKind::UnexpectedEnd, p))
    } else if s[p] != 0x7B {
        Err(perr(ParseErrorKind::UnexpectedCharacter(s[p]), p))
    } else if d > MAX_DEPTH {
        Err(perr(ParseErrorKind::NestingTooDeep, p + 1))
    } else {
        let q = skip_ws(s, p + 1);
        proof {
            lemma_ws_len_bound(s, p + 1);
        }
        if q < s.len() && s[q] == 0x7D {
            Ok((Json::Object(Seq::empty()), q + 1))
        } else {
            object_members(s, q, d, Seq::empty())
        }
    }
}

/// Object members from `q` on, with `acc` read so far.
pub open spec fn object_members(s: Seq<u8>, q: int, d: int, acc: Seq<(Seq<char>, Json)>) -> Result<
    (Json, int),
    ParseError,
>
    decreases s.len() - q, 2int,
{
    let q0 = skip_ws(s, q);
    if q0 >= s.len() || q < 0 {
        Err(perr(ParseErrorKind::UnexpectedEnd, q0))
    } else if s[q0] != 0x22 {
        Err(perr(ParseErrorKind::UnexpectedCharacter(s[q0]), q0))
    } else {
        match string_literal(s, q0) {
            Err(e) => Err(e),
            Ok((key, q1)) => {
                let q2 = skip_ws(s, q1);
                if q2 >= s.len() || q2 < 0 {
                    Err(perr(ParseErrorKind::UnexpectedEnd, q2))
                } else if s[q2] != 0x3A {
                    Err(perr(ParseErrorKind::UnexpectedCharacter(s[q2]), q2))
                } else if !(q < q2 + 1 <= s.len()) {
                    Err(perr(ParseErrorKind::UnexpectedEnd, q2))
                } else {
                    match value(s, q2 + 1, d) {
                        Err(e) => Err(e),
                        Ok((v, q3)) => {
                            let q4 = skip_ws(s, q3);
                            if q4 >= s.len() || q4 < 0 {
                                Err(perr(ParseErrorKind::UnexpectedEnd, q4))
                            } else if s[q4] == 0x2C {
                                if q < q4 + 1 <= s.len() {
                                    object_members(s, q4 + 1, d, acc.push((key, v)))
                                } else {
                                    Err(perr(ParseErrorKind::UnexpectedEnd, q4))
                                }
                            } else if s[q4] == 0x7D {
                                Ok((Json::Object(acc.push((key, v))), q4 + 1))
                            } else {
                                Err(perr(ParseErrorKind::UnexpectedCharacter(s[q4]), q4))
                            }
                        },
                    }
                }
            },
        }
    }
}

/// A whole document: one value, then only whitespace.
pub open spec fn document(s: Seq<u8>) -> Result<Json, ParseError> {
    match value(s, 0, 0) {
        Err(e) => Err(e),
        Ok((v, q)) => {
            let r = skip_ws(s, q);
            if r < s.len() {
                Err(perr(ParseErrorKind::TrailingContent, r))
            } else {
                Ok(v)
            }
        },
    }
}

} // verus!
