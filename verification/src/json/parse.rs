use vstd::prelude::*;
use super::error::{ParseError, ParseErrorKind};
use super::spec::{
    array, ascii_chars, digits_len, document, escape, object_members, hex4, hex4_from, is_digit, is_ws, array_items, literal, literal_from, number_end, object, perr, skip_ws,
    string_literal, string_body, unicode_escape, is_cont, lemma_escape_advances, utf8_decode, utf8_width, valid_utf8_seq, value,
    MAX_DEPTH, lemma_ws_len_bound, lemma_digits_len_bound,
};
use super::value::{Json, JsonValue, fields_view, items_view};

verus! {

struct Parser<'a> {
    input: &'a [u8],
    position: usize,
    depth: usize,
}

/// Parses a JSON byte slice into a `JsonValue`.
pub fn parse(input: &[u8]) -> (r: Result<JsonValue, ParseError>)
    ensures
        match document(input@) {
            Ok(v) => r matches Ok(x) && x@ == v,
            Err(e) => r == Err::<JsonValue, ParseError>(e),
        },
{
    let _n = input.len();
    let mut parser = Parser { input, position: 0, depth: 0 };
    let value = parser.parse_value();
    match value {
        Err(e) => Err(e),
        Ok(value) => {
            parser.skip_whitespace();
            if parser.position < parser.input.len() {
                return Err(parser.error(ParseErrorKind::TrailingContent));
            }
            Ok(value)
        },
    }
}

/// Where the number literal at the start of `bytes` ends, if one is there.
pub(crate) fn number_length(bytes: &[u8]) -> (r: Option<usize>)
    ensures
        match number_end(bytes@, 0) {
            Ok(q) => r == Some(q as usize) && q <= bytes@.len(),
            Err(_) => r is None,
        },
{
    let _n = bytes.len();
    let mut parser = Parser { input: bytes, position: 0, depth: 0 };
    match parser.parse_number() {
        Ok(_) => Some(parser.position),
        Err(_) => None,
    }
}

impl<'a> Parser<'a> {
    spec fn wf(&self) -> bool {
        self.position <= self.input@.len() <= usize::MAX
    }

    fn error(&self, kind: ParseErrorKind) -> (e: ParseError)
        ensures
            e == perr(kind, self.position as int),
    {
        ParseError { kind, position: self.position }
    }

    fn error_at(&self, position: usize, kind: ParseErrorKind) -> (e: ParseError)
        ensures
            e == perr(kind, position as int),
    {
        ParseError { kind, position }
    }

    fn peek(&self) -> (r: Option<u8>)
        ensures
            r == (if self.position < self.input@.len() {
                Some(self.input@[self.position as int])
            } else {
                None::<u8>
            }),
    {
        if self.position < self.input.len() {
            Some(self.input[self.position])
        } else {
            None
        }
    }

    fn peek_is(&self, b: u8) -> (r: bool)
        ensures
            r == (self.position < self.input@.len() && self.input@[self.position as int] == b),
    {
        self.position < self.input.len() && self.input[self.position] == b
    }

    fn advance(&mut self) -> (r: Option<u8>)
        requires
            old(self).wf(),
        ensures
            final(self).input == old(self).input,
            final(self).depth == old(self).depth,
            final(self).wf(),
            r == (if old(self).position < old(self).input@.len() {
                Some(old(self).input@[old(self).position as int])
            } else {
                None::<u8>
            }),
            final(self).position == (if r is Some {
                old(self).position + 1
            } else {
                old(self).position as int
            }),
    {
        if self.position < self.input.len() {
            let byte = self.input[self.position];
            self.position = self.position + 1;
            Some(byte)
        } else {
            None
        }
    }

    fn expect(&mut self, expected: u8) -> (r: Result<(), ParseError>)
        requires
            old(self).wf(),
        ensures
            final(self).input == old(self).input,
            final(self).depth == old(self).depth,
            final(self).wf(),
            ({
                let s = old(self).input@;
                let p = old(self).position as int;
                if p >= s.len() {
                    r == Err::<(), ParseError>(perr(ParseErrorKind::UnexpectedEnd, p))
                        && final(self).position == p
                } else if s[p] != expected {
                    r == Err::<(), ParseError>(
                        perr(ParseErrorKind::UnexpectedCharacter(s[p]), p),
                    ) && final(self).position == p + 1
                } else {
                    r is Ok && final(self).position == p + 1
                }
            }),
    {
        match self.advance() {
            Some(b) => {
                if b == expected {
                    Ok(())
                } else {
                    Err(self.error_at(self.position - 1, ParseErrorKind::UnexpectedCharacter(b)))
                }
            },
            None => Err(self.error(ParseErrorKind::UnexpectedEnd)),
        }
    }

    fn skip_whitespace(&mut self)
        requires
            old(self).wf(),
        ensures
            final(self).input == old(self).input,
            final(self).depth == old(self).depth,
            final(self).wf(),
            final(self).position == skip_ws(old(self).input@, old(self).position as int),
    {
        let ghost s = self.input@;
        let ghost start = self.position as int;
        while self.position < self.input.len() && is_whitespace(self.input[self.position])
            invariant
                self.input@ == s,
                s == old(self).input@,
                self.depth == old(self).depth,
                self.input == old(self).input,
                self.wf(),
                start == old(self).position,
                start <= self.position,
                skip_ws(s, start) == skip_ws(s, self.position as int),
            decreases self.input@.len() - self.position,
        {
            self.position = self.position + 1;
        }
    }
}

impl<'a> Parser<'a> {
    fn parse_value(&mut self) -> (r: Result<JsonValue, ParseError>)
        requires
            old(self).wf(),
            old(self).depth <= MAX_DEPTH,
        ensures
            final(self).input == old(self).input,
            final(self).wf(),
            match value(old(self).input@, old(self).position as int, old(self).depth as int) {
                Ok((v, p)) => r matches Ok(x) && x@ == v && final(self).position == p
                    && final(self).depth == old(self).depth,
                Err(e) => r == Err::<JsonValue, ParseError>(e),
            },
            r is Ok ==> final(self).position > old(self).position,
        decreases old(self).input@.len() - old(self).position, 1int,
    {
        self.skip_whitespace();
        match self.peek() {
            Some(b) => {
                if b == 0x6E {
                    self.parse_null()
                } else if b == 0x74 {
                    self.parse_true()
                } else if b == 0x66 {
                    self.parse_false()
                } else if b == 0x22 {
                    match self.parse_string() {
                        Ok(text) => Ok(JsonValue::String(text)),
                        Err(e) => Err(e),
                    }
                } else if b == 0x5B {
                    self.parse_array()
                } else if b == 0x7B {
                    self.parse_object()
                } else if b == 0x2D || (0x30 <= b && b <= 0x39) {
                    self.parse_number()
                } else {
                    Err(self.error(ParseErrorKind::UnexpectedCharacter(b)))
                }
            },
            None => Err(self.error(ParseErrorKind::UnexpectedEnd)),
        }
    }

    fn parse_null(&mut self) -> (r: Result<JsonValue, ParseError>)
        requires
            old(self).wf(),
        ensures
            final(self).input == old(self).input,
            final(self).depth == old(self).depth,
            final(self).wf(),
            match literal(old(self).input@, old(self).position as int, seq![0x6Eu8, 0x75u8, 0x6Cu8, 0x6Cu8]) {
                Ok(q) => r matches Ok(x) && x@ == Json::Null && final(self).position == q,
                Err(e) => r == Err::<JsonValue, ParseError>(e),
            },
            r is Ok ==> final(self).position > old(self).position,
    {
        let lit: [u8; 4] = [0x6E, 0x75, 0x6C, 0x6C];
        assert(lit@ =~= seq![0x6Eu8, 0x75u8, 0x6Cu8, 0x6Cu8]);
        match self.expect_literal(&lit) {
            Ok(()) => Ok(JsonValue::Null),
            Err(e) => Err(e),
        }
    }

    fn parse_true(&mut self) -> (r: Result<JsonValue, ParseError>)
        requires
            old(self).wf(),
        ensures
            final(self).input == old(self).input,
            final(self).depth == old(self).depth,
            final(self).wf(),
            match literal(old(self).input@, old(self).position as int, seq![0x74u8, 0x72u8, 0x75u8, 0x65u8]) {
                Ok(q) => r matches Ok(x) && x@ == Json::Bool(true) && final(self).position == q,
                Err(e) => r == Err::<JsonValue, ParseError>(e),
            },
            r is Ok ==> final(self).position > old(self).position,
    {
        let lit: [u8; 4] = [0x74, 0x72, 0x75, 0x65];
        assert(lit@ =~= seq![0x74u8, 0x72u8, 0x75u8, 0x65u8]);
        match self.expect_literal(&lit) {
            Ok(()) => Ok(JsonValue::Bool(true)),
            Err(e) => Err(e),
        }
    }

    fn parse_false(&mut self) -> (r: Result<JsonValue, ParseError>)
        requires
            old(self).wf(),
        ensures
            final(self).input == old(self).input,
            final(self).depth == old(self).depth,
            final(self).wf(),
            match literal(old(self).input@, old(self).position as int, seq![0x66u8, 0x61u8, 0x6Cu8, 0x73u8, 0x65u8]) {
                Ok(q) => r matches Ok(x) && x@ == Json::Bool(false) && final(self).position == q,
                Err(e) => r == Err::<JsonValue, ParseError>(e),
            },
            r is Ok ==> final(self).position > old(self).position,
    {
        let lit: [u8; 5] = [0x66, 0x61, 0x6C, 0x73, 0x65];
        assert(lit@ =~= seq![0x66u8, 0x61u8, 0x6Cu8, 0x73u8, 0x65u8]);
        match self.expect_literal(&lit) {
            Ok(()) => Ok(JsonValue::Bool(false)),
            Err(e) => Err(e),
        }
    }

    fn expect_literal(&mut self, lit: &[u8]) -> (r: Result<(), ParseError>)
        requires
            old(self).wf(),
        ensures
            final(self).input == old(self).input,
            final(self).depth == old(self).depth,
            final(self).wf(),
            match literal(old(self).input@, old(self).position as int, lit@) {
                Ok(q) => r is Ok && final(self).position == q,
                Err(e) => r == Err::<(), ParseError>(e),
            },
            r is Ok ==> final(self).position == old(self).position + lit@.len(),
    {
        let ghost s = self.input@;
        let ghost p = self.position as int;
        let mut i: usize = 0;
        while i < lit.len()
            invariant
                self.input == old(self).input,
                self.input@ == s,
                s == old(self).input@,
                self.depth == old(self).depth,
                self.wf(),
                0 <= i <= lit@.len(),
                p == old(self).position,
                p == old(self).position,
                p == old(self).position,
                self.position == p + i,
                literal(s, p, lit@) == literal_from(s, p, lit@, i as int),
            decreases lit@.len() - i,
        {
            let expected = lit[i];
            proof {
                assert(literal_from(s, p, lit@, i as int) == (if p + i >= s.len() {
                    Err(perr(ParseErrorKind::UnexpectedEnd, p + i))
                } else if s[p + i] != lit@[i as int] {
                    Err(perr(ParseErrorKind::UnexpectedCharacter(s[p + i]), p + i))
                } else {
                    literal_from(s, p, lit@, i + 1)
                }));
            }
            match self.advance() {
                Some(b) => {
                    if b != expected {
                        return Err(
                            self.error_at(self.position - 1, ParseErrorKind::UnexpectedCharacter(b)),
                        );
                    }
                },
                None => {
                    return Err(self.error(ParseErrorKind::UnexpectedEnd));
                },
            }
            i = i + 1;
        }
        Ok(())
    }
}

impl<'a> Parser<'a> {
    /// Advances over ASCII digits.
    fn skip_digits(&mut self)
        requires
            old(self).wf(),
        ensures
            final(self).input == old(self).input,
            final(self).depth == old(self).depth,
            final(self).wf(),
            final(self).position == old(self).position + digits_len(
                old(self).input@,
                old(self).position as int,
            ),
    {
        let ghost s = self.input@;
        let ghost start = self.position as int;
        while self.position < self.input.len() && is_ascii_digit(self.input[self.position])
            invariant
                self.input@ == s,
                s == old(self).input@,
                self.input == old(self).input,
                self.depth == old(self).depth,
                self.wf(),
                start == old(self).position,
                start <= self.position,
                start + digits_len(s, start) == self.position + digits_len(s, self.position as int),
            decreases self.input@.len() - self.position,
        {
            self.position = self.position + 1;
        }
    }

    #[verifier::rlimit(40)]
    fn parse_number(&mut self) -> (r: Result<JsonValue, ParseError>)
        requires
            old(self).wf(),
        ensures
            final(self).input == old(self).input,
            final(self).depth == old(self).depth,
            final(self).wf(),
            match number_end(old(self).input@, old(self).position as int) {
                Ok(q) => r matches Ok(x) && x@ == Json::Number(
                    ascii_chars(old(self).input@, old(self).position as int, q),
                ) && final(self).position == q,
                Err(e) => r == Err::<JsonValue, ParseError>(e),
            },
            r is Ok ==> final(self).position > old(self).position,
    {
        let ghost s = self.input@;
        let start = self.position;
        if self.peek_is(0x2D) {
            self.position = self.position + 1;
        }
        let ghost a = self.position as int;
        match self.peek() {
            Some(b) => {
                if b == 0x30 {
                    self.position = self.position + 1;
                } else if 0x31 <= b && b <= 0x39 {
                    self.position = self.position + 1;
                    self.skip_digits();
                } else {
                    return Err(self.error(ParseErrorKind::InvalidNumber));
                }
            },
            None => {
                return Err(self.error(ParseErrorKind::InvalidNumber));
            },
        }
        proof {
            lemma_digits_len_bound(s, a + 1);
        }
        if self.peek_is(0x2E) {
            self.position = self.position + 1;
            let frac_start = self.position;
            self.skip_digits();
            if self.position == frac_start {
                return Err(self.error(ParseErrorKind::InvalidNumber));
            }
        }
        if self.peek_is(0x65) || self.peek_is(0x45) {
            self.position = self.position + 1;
            if self.peek_is(0x2B) || self.peek_is(0x2D) {
                self.position = self.position + 1;
            }
            let exp_start = self.position;
            self.skip_digits();
            if self.position == exp_start {
                return Err(self.error(ParseErrorKind::InvalidNumber));
            }
        }
        let mut text = String::new();
        let mut k = start;
        while k < self.position
            invariant
                self.input@ == s,
                s == old(self).input@,
                start <= k <= self.position <= s.len(),
                text@ =~= ascii_chars(s, start as int, k as int),
            decreases self.position - k,
        {
            text.push(self.input[k] as char);
            k = k + 1;
        }
        Ok(JsonValue::Number(text))
    }

    fn parse_hex4(&mut self) -> (r: Result<u32, ParseError>)
        requires
            old(self).wf(),
        ensures
            final(self).input == old(self).input,
            final(self).depth == old(self).depth,
            final(self).wf(),
            match hex4(old(self).input@, old(self).position as int) {
                Ok(v) => r == Ok::<u32, ParseError>(v) && final(self).position == old(self).position + 4,
                Err(e) => r == Err::<u32, ParseError>(e),
            },
    {
        let ghost s = self.input@;
        let ghost t = self.position as int;
        let mut value: u32 = 0;
        let mut i: usize = 0;
        while i < 4
            invariant
                self.input == old(self).input,
                self.input@ == s,
                s == old(self).input@,
                self.depth == old(self).depth,
                self.wf(),
                0 <= i <= 4,
                t == old(self).position,
                self.position == t + i,
                value < 0x10000,
                i == 0 ==> value == 0,
                i <= 3 ==> value < pow16(i as int),
                hex4(s, t) == hex4_from(s, t, i as int, value),
            decreases 4 - i,
        {
            let digit: u32 = match self.advance() {
                Some(b) => {
                    if 0x30 <= b && b <= 0x39 {
                        (b - 0x30) as u32
                    } else if 0x61 <= b && b <= 0x66 {
                        (b - 0x61 + 10) as u32
                    } else if 0x41 <= b && b <= 0x46 {
                        (b - 0x41 + 10) as u32
                    } else {
                        return Err(
                            self.error_at(self.position - 1, ParseErrorKind::InvalidUnicodeEscape),
                        );
                    }
                },
                None => {
                    return Err(self.error(ParseErrorKind::InvalidUnicodeEscape));
                },
            };
            value = value * 16 + digit;
            i = i + 1;
        }
        Ok(value)
    }
}

impl<'a> Parser<'a> {
    fn parse_string(&mut self) -> (r: Result<String, ParseError>)
        requires
            old(self).wf(),
        ensures
            final(self).input == old(self).input,
            final(self).depth == old(self).depth,
            final(self).wf(),
            match string_literal(old(self).input@, old(self).position as int) {
                Ok((t, q)) => r matches Ok(x) && x@ == t && final(self).position == q,
                Err(e) => r == Err::<String, ParseError>(e),
            },
            r is Ok ==> final(self).position > old(self).position,
    {
        let ghost s = self.input@;
        let ghost p = self.position as int;
        match self.expect(0x22) {
            Err(e) => {
                return Err(e);
            },
            Ok(()) => {},
        }
        let mut buf = String::new();
        loop
            invariant
                self.input == old(self).input,
                self.input@ == s,
                s == old(self).input@,
                self.depth == old(self).depth,
                self.wf(),
                p == old(self).position,
                self.position > p,
                string_literal(s, p) == string_body(s, self.position as int, buf@),
            decreases self.input@.len() - self.position,
        {
            match self.advance() {
                Some(b) => {
                    if b == 0x22 {
                        return Ok(buf);
                    } else if b == 0x5C {
                        proof {
                            lemma_escape_advances(s, self.position as int);
                        }
                        match self.parse_escape() {
                            Ok(ch) => {
                                buf.push(ch);
                            },
                            Err(e) => {
                                return Err(e);
                            },
                        }
                    } else if b < 0x20 {
                        return Err(
                            self.error_at(self.position - 1, ParseErrorKind::UnexpectedCharacter(b)),
                        );
                    } else {
                        let width = utf8_char_width(b);
                        if width == 0 {
                            return Err(self.error(ParseErrorKind::InvalidUtf8));
                        }
                        if width == 1 {
                            buf.push(b as char);
                        } else {
                            let start = self.position - 1;
                            if self.input.len() - self.position < width - 1 {
                                self.position = self.input.len();
                                return Err(self.error(ParseErrorKind::InvalidUtf8));
                            }
                            self.position = self.position + (width - 1);
                            let bytes = &self.input[start..self.position];
                            if !is_valid_utf8_sequence(bytes) {
                                return Err(self.error(ParseErrorKind::InvalidUtf8));
                            }
                            let cp = decode_utf8_sequence(bytes);
                            match core::char::from_u32(cp) {
                                Some(ch) => {
                                    proof {
                                        vstd::utf8::char_u32_cast(ch, cp);
                                    }
                                    buf.push(ch);
                                },
                                None => {
                                    return Err(self.error(ParseErrorKind::InvalidUtf8));
                                },
                            }
                        }
                    }
                },
                None => {
                    return Err(self.error(ParseErrorKind::UnexpectedEnd));
                },
            }
        }
    }

    fn parse_escape(&mut self) -> (r: Result<char, ParseError>)
        requires
            old(self).wf(),
        ensures
            final(self).input == old(self).input,
            final(self).depth == old(self).depth,
            final(self).wf(),
            match escape(old(self).input@, old(self).position as int) {
                Ok((c, q)) => r == Ok::<char, ParseError>(c) && final(self).position == q,
                Err(e) => r == Err::<char, ParseError>(e),
            },
    {
        match self.advance() {
            Some(b) => {
                if b == 0x22 {
                    Ok('"')
                } else if b == 0x5C {
                    Ok('\\')
                } else if b == 0x2F {
                    Ok('/')
                } else if b == 0x62 {
                    Ok('\u{0008}')
                } else if b == 0x66 {
                    Ok('\u{000C}')
                } else if b == 0x6E {
                    Ok('\n')
                } else if b == 0x72 {
                    Ok('\r')
                } else if b == 0x74 {
                    Ok('\t')
                } else if b == 0x75 {
                    self.parse_unicode_escape()
                } else {
                    Err(self.error_at(self.position - 1, ParseErrorKind::InvalidEscape))
                }
            },
            None => Err(self.error(ParseErrorKind::UnexpectedEnd)),
        }
    }

    fn parse_unicode_escape(&mut self) -> (r: Result<char, ParseError>)
        requires
            old(self).wf(),
        ensures
            final(self).input == old(self).input,
            final(self).depth == old(self).depth,
            final(self).wf(),
            match unicode_escape(old(self).input@, old(self).position as int) {
                Ok((c, q)) => r == Ok::<char, ParseError>(c) && final(self).position == q,
                Err(e) => r == Err::<char, ParseError>(e),
            },
    {
        let cp = match self.parse_hex4() {
            Ok(cp) => cp,
            Err(e) => {
                return Err(e);
            },
        };
        if 0xD800 <= cp && cp <= 0xDBFF {
            if self.expect(0x5C).is_err() {
                return Err(self.error(ParseErrorKind::InvalidUnicodeEscape));
            }
            if self.expect(0x75).is_err() {
                return Err(self.error(ParseErrorKind::InvalidUnicodeEscape));
            }
            let low = match self.parse_hex4() {
                Ok(low) => low,
                Err(e) => {
                    return Err(e);
                },
            };
            if !(0xDC00 <= low && low <= 0xDFFF) {
                return Err(self.error(ParseErrorKind::InvalidUnicodeEscape));
            }
            let combined = (cp - 0xD800) * 0x400 + (low - 0xDC00) + 0x10000;
            match core::char::from_u32(combined) {
                Some(ch) => {
                    proof {
                        vstd::utf8::char_u32_cast(ch, combined);
                    }
                    Ok(ch)
                },
                None => Err(self.error(ParseErrorKind::InvalidUnicodeEscape)),
            }
        } else if 0xDC00 <= cp && cp <= 0xDFFF {
            Err(self.error(ParseErrorKind::InvalidUnicodeEscape))
        } else {
            match core::char::from_u32(cp) {
                Some(ch) => {
                    proof {
                        vstd::utf8::char_u32_cast(ch, cp);
                    }
                    Ok(ch)
                },
                None => Err(self.error(ParseErrorKind::InvalidUnicodeEscape)),
            }
        }
    }

    fn parse_array(&mut self) -> (r: Result<JsonValue, ParseError>)
        requires
            old(self).wf(),
            old(self).depth <= MAX_DEPTH,
        ensures
            final(self).input == old(self).input,
            final(self).wf(),
            match array(old(self).input@, old(self).position as int, old(self).depth as int) {
                Ok((v, p)) => r matches Ok(x) && x@ == v && final(self).position == p
                    && final(self).depth == old(self).depth,
                Err(e) => r == Err::<JsonValue, ParseError>(e),
            },
            r is Ok ==> final(self).position > old(self).position,
        decreases old(self).input@.len() - old(self).position, 0int,
    {
        let ghost s = self.input@;
        let ghost p = self.position as int;
        let ghost d0 = self.depth as int;
        match self.expect(0x5B) {
            Err(e) => {
                return Err(e);
            },
            Ok(()) => {},
        }
        self.depth = self.depth + 1;
        if self.depth > MAX_DEPTH {
            return Err(self.error(ParseErrorKind::NestingTooDeep));
        }
        self.skip_whitespace();
        proof {
            lemma_ws_len_bound(s, p + 1);
        }
        if self.peek_is(0x5D) {
            self.position = self.position + 1;
            self.depth = self.depth - 1;
            return Ok(JsonValue::Array(Vec::new()));
        }
        let mut items: Vec<JsonValue> = Vec::new();
        assert(items_view(items@) =~= Seq::<Json>::empty());
        loop
            invariant
                self.input == old(self).input,
                self.input@ == s,
                s == old(self).input@,
                self.wf(),
                self.depth == d0 + 1,
                p == old(self).position,
                d0 == old(self).depth,
                self.depth <= MAX_DEPTH,
                self.position > p,
                array(s, p, d0) == array_items(s, self.position as int, self.depth as int, items_view(items@)),
            decreases self.input@.len() - self.position,
        {
            let ghost q = self.position as int;
            let value = match self.parse_value() {
                Ok(value) => value,
                Err(e) => {
                    return Err(e);
                },
            };
            let ghost before = items@;
            items.push(value);
            assert(items@.drop_last() =~= before);
            self.skip_whitespace();
            proof {
                lemma_ws_len_bound(s, self.position as int);
            }
            match self.peek() {
                Some(b) => {
                    if b == 0x2C {
                        self.position = self.position + 1;
                    } else if b == 0x5D {
                        self.position = self.position + 1;
                        self.depth = self.depth - 1;
                        return Ok(JsonValue::Array(items));
                    } else {
                        return Err(self.error(ParseErrorKind::UnexpectedCharacter(b)));
                    }
                },
                None => {
                    return Err(self.error(ParseErrorKind::UnexpectedEnd));
                },
            }
        }
    }

    fn parse_object(&mut self) -> (r: Result<JsonValue, ParseError>)
        requires
            old(self).wf(),
            old(self).depth <= MAX_DEPTH,
        ensures
            final(self).input == old(self).input,
            final(self).wf(),
            match object(old(self).input@, old(self).position as int, old(self).depth as int) {
                Ok((v, p)) => r matches Ok(x) && x@ == v && final(self).position == p
                    && final(self).depth == old(self).depth,
                Err(e) => r == Err::<JsonValue, ParseError>(e),
            },
            r is Ok ==> final(self).position > old(self).position,
        decreases old(self).input@.len() - old(self).position, 0int,
    {
        let ghost s = self.input@;
        let ghost p = self.position as int;
        let ghost d0 = self.depth as int;
        match self.expect(0x7B) {
            Err(e) => {
                return Err(e);
            },
            Ok(()) => {},
        }
        self.depth = self.depth + 1;
        if self.depth > MAX_DEPTH {
            return Err(self.error(ParseErrorKind::NestingTooDeep));
        }
        self.skip_whitespace();
        proof {
            lemma_ws_len_bound(s, p + 1);
        }
        if self.peek_is(0x7D) {
            self.position = self.position + 1;
            self.depth = self.depth - 1;
            return Ok(JsonValue::Object(Vec::new()));
        }
        let mut fields: Vec<(String, JsonValue)> = Vec::new();
        assert(fields_view(fields@) =~= Seq::<(Seq<char>, Json)>::empty());
        loop
            invariant
                self.input == old(self).input,
                self.input@ == s,
                s == old(self).input@,
                self.wf(),
                self.depth == d0 + 1,
                p == old(self).position,
                d0 == old(self).depth,
                self.depth <= MAX_DEPTH,
                self.position > p,
                object(s, p, d0) == object_members(s, self.position as int, self.depth as int, fields_view(fields@)),
            decreases self.input@.len() - self.position,
        {
            let ghost q = self.position as int;
            self.skip_whitespace();
            proof {
                lemma_ws_len_bound(s, q);
            }
            if !self.peek_is(0x22) {
                return Err(
                    match self.peek() {
                        Some(b) => self.error(ParseErrorKind::UnexpectedCharacter(b)),
                        None => self.error(ParseErrorKind::UnexpectedEnd),
                    },
                );
            }
            let key = match self.parse_string() {
                Ok(key) => key,
                Err(e) => {
                    return Err(e);
                },
            };
            self.skip_whitespace();
            proof {
                lemma_ws_len_bound(s, self.position as int);
            }
            match self.expect(0x3A) {
                Err(e) => {
                    return Err(e);
                },
                Ok(()) => {},
            }
            let value = match self.parse_value() {
                Ok(value) => value,
                Err(e) => {
                    return Err(e);
                },
            };
            let ghost before = fields@;
            fields.push((key, value));
            assert(fields@.drop_last() =~= before);
            self.skip_whitespace();
            proof {
                lemma_ws_len_bound(s, self.position as int);
            }
            match self.peek() {
                Some(b) => {
                    if b == 0x2C {
                        self.position = self.position + 1;
                    } else if b == 0x7D {
                        self.position = self.position + 1;
                        self.depth = self.depth - 1;
                        return Ok(JsonValue::Object(fields));
                    } else {
                        return Err(self.error(ParseErrorKind::UnexpectedCharacter(b)));
                    }
                },
                None => {
                    return Err(self.error(ParseErrorKind::UnexpectedEnd));
                },
            }
        }
    }
}

fn is_whitespace(b: u8) -> (r: bool)
    ensures
        r == is_ws(b),
{
    b == 0x20 || b == 0x09 || b == 0x0A || b == 0x0D
}

fn is_ascii_digit(b: u8) -> (r: bool)
    ensures
        r == is_digit(b),
{
    0x30 <= b && b <= 0x39
}

/// Returns the UTF-8 character width from the first byte (0: not a lead byte).
fn utf8_char_width(b: u8) -> (r: usize)
    ensures
        r == utf8_width(b),
{
    if b < 0x80 {
        1
    } else if 0xC2 <= b && b <= 0xDF {
        2
    } else if 0xE0 <= b && b <= 0xEF {
        3
    } else if 0xF0 <= b && b <= 0xF4 {
        4
    } else {
        0
    }
}

fn is_valid_utf8_sequence(bytes: &[u8]) -> (r: bool)
    ensures
        r == valid_utf8_seq(bytes@),
{
    if bytes.len() == 2 {
        0xC2 <= bytes[0] && bytes[0] <= 0xDF && is_continuation_byte(bytes[1])
    } else if bytes.len() == 3 {
        let first = bytes[0];
        let second = bytes[1];
        (if first == 0xE0 {
            0xA0 <= second && second <= 0xBF
        } else if (0xE1 <= first && first <= 0xEC) || (0xEE <= first && first <= 0xEF) {
            is_continuation_byte(second)
        } else if first == 0xED {
            0x80 <= second && second <= 0x9F
        } else {
            false
        }) && is_continuation_byte(bytes[2])
    } else if bytes.len() == 4 {
        let first = bytes[0];
        let second = bytes[1];
        (if first == 0xF0 {
            0x90 <= second && second <= 0xBF
        } else if 0xF1 <= first && first <= 0xF3 {
            is_continuation_byte(second)
        } else if first == 0xF4 {
            0x80 <= second && second <= 0x8F
        } else {
            false
        }) && is_continuation_byte(bytes[2]) && is_continuation_byte(bytes[3])
    } else {
        false
    }
}

fn is_continuation_byte(b: u8) -> (r: bool)
    ensures
        r == is_cont(b),
{
    0x80 <= b && b <= 0xBF
}

/// The code point of a two-, three- or four-byte sequence.
fn decode_utf8_sequence(bytes: &[u8]) -> (r: u32)
    requires
        2 <= bytes@.len() <= 4,
    ensures
        r == utf8_decode(bytes@),
{
    if bytes.len() == 2 {
        (((bytes[0] & 0x1F) as u32) << 6u32) | ((bytes[1] & 0x3F) as u32)
    } else if bytes.len() == 3 {
        (((bytes[0] & 0x0F) as u32) << 12u32) | (((bytes[1] & 0x3F) as u32) << 6u32) | ((bytes[2]
            & 0x3F) as u32)
    } else {
        (((bytes[0] & 0x07) as u32) << 18u32) | (((bytes[1] & 0x3F) as u32) << 12u32) | (((
        bytes[2] & 0x3F) as u32) << 6u32) | ((bytes[3] & 0x3F) as u32)
    }
}

pub open spec fn pow16(i: int) -> int {
    if i <= 0 { 1 } else if i == 1 { 16 } else if i == 2 { 256 } else if i == 3 { 4096 } else { 65536 }
}

} // verus!