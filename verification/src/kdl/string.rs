//! KDL v2 strings: identifier strings, quoted strings with escapes, raw
//! strings `#"..."#`, and the multi-line forms `"""` and `#"""`, whose lines
//! lose the indentation of their closing line.
//!
//! Every error met inside a string is reported at the position where the
//! string begins.
use vstd::prelude::*;
use crate::kdl_ast::nsid::{join_with, split_on};
use super::number::is_digit_at;
use super::quote::ascii_digit;
use super::scan::{
    char_at, cursor_ok, disallowed, error_at, identifier_char, is_disallowed, is_identifier_char,
    is_newline, is_unicode_space, lemma_walk, lemma_walk_step, lemma_walk_zero, newline,
    unicode_space, walk, Cursor, Scanner,
};
use super::value::{KdlError, KdlErrorKind};

verus! {

/// What stands at a position where a string may begin.
pub enum StrScan {
    /// No string begins here.
    NotString,
    /// A malformed string.
    Invalid(KdlErrorKind),
    /// A string with text `text`, ending before position `end`.
    Str { text: Seq<char>, end: int },
}

// ---- identifier strings ----

/// An identifier string may begin at `p`: an identifier character that is
/// no digit, and, after a sign or a dot, no digit that would make a number.
pub open spec fn ident_start(s: Seq<char>, p: int) -> bool {
    match char_at(s, p) {
        None => false,
        Some(c) => {
            &&& identifier_char(c)
            &&& !ascii_digit(c)
            &&& (c == '+' || c == '-') ==> !is_digit_at(s, p + 1)
            &&& (c == '+' || c == '-') ==> !(char_at(s, p + 1) == Some('.') && is_digit_at(s, p + 2))
            &&& c == '.' ==> !is_digit_at(s, p + 1)
        },
    }
}

/// The first position at or after `p` that holds no identifier character.
pub open spec fn ident_end(s: Seq<char>, p: int) -> int
    decreases s.len() - p,
{
    if 0 <= p < s.len() && identifier_char(s[p]) {
        ident_end(s, p + 1)
    } else {
        p
    }
}

/// The words that may not stand bare as identifiers.
pub open spec fn bare_keyword(t: Seq<char>) -> bool {
    t == seq!['t', 'r', 'u', 'e'] || t == seq!['f', 'a', 'l', 's', 'e'] || t == seq![
        'n',
        'u',
        'l',
        'l',
    ] || t == seq!['i', 'n', 'f'] || t == seq!['-', 'i', 'n', 'f'] || t == seq!['n', 'a', 'n']
}

/// An identifier string at `p`.
pub open spec fn ident_scan(s: Seq<char>, p: int) -> StrScan {
    if !ident_start(s, p) {
        StrScan::NotString
    } else {
        let t = s.subrange(p, ident_end(s, p));
        if bare_keyword(t) {
            StrScan::Invalid(KdlErrorKind::BareKeyword)
        } else {
            StrScan::Str { text: t, end: ident_end(s, p) }
        }
    }
}

// ---- delimiters ----

/// `n` characters `ch` stand at `i`.
pub open spec fn run_at(s: Seq<char>, i: int, n: nat, ch: char) -> bool
    decreases n,
{
    n == 0 || (char_at(s, i) == Some(ch) && run_at(s, i + 1, (n - 1) as nat, ch))
}

/// `n` quotes and then `h` hashes stand at `i`.
pub open spec fn closer_at(s: Seq<char>, i: int, n: nat, h: nat) -> bool {
    run_at(s, i, n, '"') && run_at(s, i + n, h, '#')
}

/// Where `n` quotes close a string whose body starts at `q`, a backslash
/// passing the character after it.
pub open spec fn esc_close(s: Seq<char>, q: int, n: nat) -> Option<int>
    decreases s.len() + 1 - q,
{
    if q < 0 || q >= s.len() {
        None
    } else if s[q] == '\\' {
        esc_close(s, q + 2, n)
    } else if closer_at(s, q, n, 0) {
        Some(q)
    } else {
        esc_close(s, q + 1, n)
    }
}

/// Where `n` quotes and `h` hashes close a raw string whose body starts at
/// `q`.
pub open spec fn raw_close(s: Seq<char>, q: int, n: nat, h: nat) -> Option<int>
    decreases s.len() - q,
{
    if q < 0 || q >= s.len() {
        None
    } else if closer_at(s, q, n, h) {
        Some(q)
    } else {
        raw_close(s, q + 1, n, h)
    }
}

/// The first position at or after `p` that holds no `#`.
pub open spec fn hash_end(s: Seq<char>, p: int) -> int
    decreases s.len() - p,
{
    if 0 <= p < s.len() && s[p] == '#' {
        hash_end(s, p + 1)
    } else {
        p
    }
}

// ---- escapes ----

/// A white space character that an escape may pass.
pub open spec fn escaped_space(c: char) -> bool {
    unicode_space(c) || newline(c)
}

/// The first position at or after `i` that holds no white space.
pub open spec fn space_end(b: Seq<char>, i: int) -> int
    decreases b.len() - i,
{
    if 0 <= i < b.len() && escaped_space(b[i]) {
        space_end(b, i + 1)
    } else {
        i
    }
}

pub open spec fn hex_digit(c: char) -> bool {
    ('0' <= c && c <= '9') || ('a' <= c && c <= 'f') || ('A' <= c && c <= 'F')
}

pub open spec fn hex_val(c: char) -> nat {
    if '0' <= c && c <= '9' {
        (c as nat - 48) as nat
    } else if 'a' <= c && c <= 'f' {
        (c as nat - 87) as nat
    } else {
        (c as nat - 55) as nat
    }
}

/// The first position at or after `i` that holds no hexadecimal digit.
pub open spec fn hex_end(b: Seq<char>, i: int) -> int
    decreases b.len() - i,
{
    if 0 <= i < b.len() && hex_digit(b[i]) {
        hex_end(b, i + 1)
    } else {
        i
    }
}

/// The value of hexadecimal digits.
pub open spec fn hex_value(d: Seq<char>) -> nat
    decreases d.len(),
{
    if d.len() == 0 {
        0
    } else {
        hex_value(d.drop_last()) * 16 + hex_val(d.last())
    }
}

/// A character value: a Unicode scalar value.
pub open spec fn scalar(v: nat) -> bool {
    v <= 0x10FFFF && !(0xD800 <= v && v <= 0xDFFF)
}

/// The character whose scalar value is `v`.
pub open spec fn scalar_char(v: nat) -> char {
    (v as u32) as char
}

/// The escape `{h..h}` after `\u` at `i`: one to six hexadecimal digits
/// naming a Unicode scalar value, and the position after the `}`.
pub open spec fn unicode_escape(b: Seq<char>, i: int) -> Option<(char, int)> {
    let e = hex_end(b, i + 1);
    if char_at(b, i) == Some('{') && 1 <= e - (i + 1) <= 6 && char_at(b, e) == Some('}') && scalar(
        hex_value(b.subrange(i + 1, e)),
    ) {
        Some((scalar_char(hex_value(b.subrange(i + 1, e))), e + 1))
    } else {
        None
    }
}

/// The character that a one-letter escape stands for.
pub open spec fn simple_escape(e: char) -> Option<char> {
    if e == 'n' {
        Some('\n')
    } else if e == 'r' {
        Some('\r')
    } else if e == 't' {
        Some('\t')
    } else if e == '\\' {
        Some('\\')
    } else if e == '"' {
        Some('"')
    } else if e == 'b' {
        Some('\u{8}')
    } else if e == 'f' {
        Some('\u{c}')
    } else if e == 's' {
        Some(' ')
    } else {
        None
    }
}

/// The text of a string body from `i` on, after `acc`: escapes resolved
/// unless `raw`; a disallowed code point is an error, and so is a newline
/// unless `multi`.
pub open spec fn decode(b: Seq<char>, i: int, acc: Seq<char>, multi: bool, raw: bool) -> Result<
    Seq<char>,
    KdlErrorKind,
>
    decreases b.len() - i,
{
    if i < 0 || i >= b.len() {
        Ok(acc)
    } else {
        let c = b[i];
        if disallowed(c) {
            Err(KdlErrorKind::DisallowedCodePoint(c))
        } else if newline(c) && !multi {
            Err(KdlErrorKind::UnexpectedChar(c))
        } else if c == '\\' && !raw {
            if i + 1 >= b.len() {
                Err(KdlErrorKind::InvalidEscape)
            } else {
                let e = b[i + 1];
                match simple_escape(e) {
                    Some(x) => decode(b, i + 2, acc.push(x), multi, raw),
                    None => if escaped_space(e) {
                        let j = space_end(b, i + 1);
                        if i < j <= b.len() {
                            decode(b, j, acc, multi, raw)
                        } else {
                            Ok(acc)
                        }
                    } else if e == 'u' {
                        match unicode_escape(b, i + 2) {
                            Some((x, j)) => if i < j <= b.len() {
                                decode(b, j, acc.push(x), multi, raw)
                            } else {
                                Ok(acc)
                            },
                            None => Err(KdlErrorKind::InvalidUnicodeEscape),
                        }
                    } else {
                        Err(KdlErrorKind::InvalidEscape)
                    },
                }
            }
        } else {
            decode(b, i + 1, acc.push(c), multi, raw)
        }
    }
}

// ---- multi-line bodies ----

/// The body from `i` on with each line break (CR LF taken as one) as `\n`.
pub open spec fn norm_from(b: Seq<char>, i: int) -> Seq<char>
    decreases b.len() - i,
{
    if i < 0 || i >= b.len() {
        Seq::empty()
    } else if b[i] == '\r' && i + 1 < b.len() && b[i + 1] == '\n' {
        seq!['\n'] + norm_from(b, i + 2)
    } else if newline(b[i]) {
        seq!['\n'] + norm_from(b, i + 1)
    } else {
        seq![b[i]] + norm_from(b, i + 1)
    }
}

/// The line holds unicode spaces only.
pub open spec fn all_space(l: Seq<char>) -> bool {
    forall|k: int| 0 <= k < l.len() ==> unicode_space(l[k])
}

/// A line without the indentation `prefix`; a line of spaces only is empty.
pub open spec fn dedent_line(l: Seq<char>, prefix: Seq<char>) -> Option<Seq<char>> {
    if all_space(l) {
        Some(Seq::empty())
    } else if prefix.len() <= l.len() && l.take(prefix.len() as int) == prefix {
        Some(l.skip(prefix.len() as int))
    } else {
        None
    }
}

pub open spec fn dedent_lines(ls: Seq<Seq<char>>, prefix: Seq<char>) -> Option<Seq<Seq<char>>>
    decreases ls.len(),
{
    if ls.len() == 0 {
        Some(Seq::empty())
    } else {
        match dedent_lines(ls.drop_last(), prefix) {
            None => None,
            Some(a) => match dedent_line(ls.last(), prefix) {
                None => None,
                Some(x) => Some(a.push(x)),
            },
        }
    }
}

/// The text of a multi-line body: its last line, spaces only, is the
/// indentation that every other line loses; `None` when a line lacks it.
pub open spec fn dedent(body: Seq<char>) -> Option<Seq<char>> {
    let ls = split_on(norm_from(body, 0), '\n');
    if !all_space(ls.last()) {
        None
    } else {
        match dedent_lines(ls.drop_last(), ls.last()) {
            None => None,
            Some(d) => Some(join_with(d, '\n')),
        }
    }
}

/// Where the body of a multi-line string starts whose opening delimiter
/// ends at `q`: after the line break there.
pub open spec fn body_start(s: Seq<char>, q: int) -> int {
    if char_at(s, q) == Some('\r') && char_at(s, q + 1) == Some('\n') {
        q + 2
    } else {
        q + 1
    }
}

/// A multi-line body between `b0` and `e`, read as text.
pub open spec fn multi_text(s: Seq<char>, b0: int, e: int, raw: bool) -> Result<Seq<char>, KdlErrorKind> {
    match dedent(s.subrange(b0, e)) {
        None => Err(KdlErrorKind::InconsistentIndentation),
        Some(d) => decode(d, 0, Seq::empty(), true, raw),
    }
}

/// A single-line body between `b0` and `e`, read as text.
pub open spec fn line_text(s: Seq<char>, b0: int, e: int, raw: bool) -> Result<Seq<char>, KdlErrorKind> {
    decode(s.subrange(b0, e), 0, Seq::empty(), false, raw)
}

/// A string whose text is `x`, ending at `end`.
pub open spec fn ending(x: Result<Seq<char>, KdlErrorKind>, end: int) -> StrScan {
    match x {
        Ok(text) => StrScan::Str { text, end },
        Err(k) => StrScan::Invalid(k),
    }
}

/// A quoted string at `p`, single-line or multi-line.
pub open spec fn quoted_scan(s: Seq<char>, p: int) -> StrScan {
    if char_at(s, p) != Some('"') {
        StrScan::NotString
    } else if char_at(s, p + 1) == Some('"') && char_at(s, p + 2) == Some('"') {
        if !(char_at(s, p + 3) matches Some(c) && newline(c)) {
            StrScan::Invalid(KdlErrorKind::UnclosedString)
        } else {
            let b0 = body_start(s, p + 3);
            match esc_close(s, b0, 3) {
                None => StrScan::Invalid(KdlErrorKind::UnclosedString),
                Some(e) => ending(multi_text(s, b0, e, false), e + 3),
            }
        }
    } else {
        match esc_close(s, p + 1, 1) {
            None => StrScan::Invalid(KdlErrorKind::UnclosedString),
            Some(e) => ending(line_text(s, p + 1, e, false), e + 1),
        }
    }
}

/// A raw string at `p`: hashes, then a single-line or multi-line quoted
/// body without escapes, closed by as many hashes.
pub open spec fn raw_scan(s: Seq<char>, p: int) -> StrScan {
    let q = hash_end(s, p);
    let h = (q - p) as nat;
    if char_at(s, p) != Some('#') || char_at(s, q) != Some('"') {
        StrScan::NotString
    } else if char_at(s, q + 1) == Some('"') && char_at(s, q + 2) == Some('"') {
        if !(char_at(s, q + 3) matches Some(c) && newline(c)) {
            StrScan::Invalid(KdlErrorKind::UnclosedString)
        } else {
            let b0 = body_start(s, q + 3);
            match raw_close(s, b0, 3, h) {
                None => StrScan::Invalid(KdlErrorKind::UnclosedString),
                Some(e) => ending(multi_text(s, b0, e, true), e + 3 + h),
            }
        }
    } else {
        match raw_close(s, q + 1, 1, h) {
            None => StrScan::Invalid(KdlErrorKind::UnclosedString),
            Some(e) => ending(line_text(s, q + 1, e, true), e + 1 + h),
        }
    }
}

/// The string at `p`: quoted, raw, or an identifier.
pub open spec fn string_scan(s: Seq<char>, p: int) -> StrScan {
    match char_at(s, p) {
        Some('"') => quoted_scan(s, p),
        Some('#') => raw_scan(s, p),
        _ => ident_scan(s, p),
    }
}

// ---- reading, by position in the characters ----

fn char_at_exec(t: &Vec<char>, p: usize) -> (r: Option<char>)
    ensures
        r == char_at(t@, p as int),
{
    if p < t.len() {
        Some(t[p])
    } else {
        None
    }
}

fn digit_at_exec(t: &Vec<char>, p: usize) -> (r: bool)
    ensures
        r == is_digit_at(t@, p as int),
{
    match char_at_exec(t, p) {
        Some(c) => '0' <= c && c <= '9',
        None => false,
    }
}

fn ident_start_exec(t: &Vec<char>, p: usize) -> (r: bool)
    requires
        p < usize::MAX - 2,
    ensures
        r == ident_start(t@, p as int),
{
    match char_at_exec(t, p) {
        None => false,
        Some(c) => {
            if !is_identifier_char(c) || ('0' <= c && c <= '9') {
                return false;
            }
            if c == '+' || c == '-' {
                if digit_at_exec(t, p + 1) {
                    return false;
                }
                if char_at_exec(t, p + 1) == Some('.') && digit_at_exec(t, p + 2) {
                    return false;
                }
            }
            if c == '.' && digit_at_exec(t, p + 1) {
                return false;
            }
            true
        },
    }
}

fn ident_end_exec(t: &Vec<char>, p: usize) -> (r: usize)
    requires
        p <= t@.len(),
    ensures
        r == ident_end(t@, p as int),
        p <= r <= t@.len(),
{
    let mut i = p;
    while i < t.len() && is_identifier_char(t[i])
        invariant
            p <= i <= t@.len(),
            ident_end(t@, p as int) == ident_end(t@, i as int),
        decreases t@.len() - i,
    {
        i = i + 1;
    }
    i
}

fn bare_keyword_exec(t: &Vec<char>, p: usize, e: usize) -> (r: bool)
    requires
        p <= e <= t@.len(),
    ensures
        r == bare_keyword(t@.subrange(p as int, e as int)),
{
    let ghost w = t@.subrange(p as int, e as int);
    let n = e - p;
    let r = if n == 3 {
        (t[p] == 'i' && t[p + 1] == 'n' && t[p + 2] == 'f') || (t[p] == 'n' && t[p + 1] == 'a'
            && t[p + 2] == 'n')
    } else if n == 4 {
        (t[p] == 't' && t[p + 1] == 'r' && t[p + 2] == 'u' && t[p + 3] == 'e') || (t[p] == 'n'
            && t[p + 1] == 'u' && t[p + 2] == 'l' && t[p + 3] == 'l') || (t[p] == '-' && t[p + 1]
            == 'i' && t[p + 2] == 'n' && t[p + 3] == 'f')
    } else if n == 5 {
        t[p] == 'f' && t[p + 1] == 'a' && t[p + 2] == 'l' && t[p + 3] == 's' && t[p + 4] == 'e'
    } else {
        false
    };
    proof {
        if n == 3 {
            assert(w.len() == 3 && w[0] == t@[p as int] && w[1] == t@[p + 1] && w[2] == t@[p + 2]);
            assert(r ==> (w =~= seq!['i', 'n', 'f'] || w =~= seq!['n', 'a', 'n']));
        } else if n == 4 {
            assert(w[0] == t@[p as int] && w[1] == t@[p + 1] && w[2] == t@[p + 2] && w[3] == t@[p
                + 3]);
            assert(r ==> (w =~= seq!['t', 'r', 'u', 'e'] || w =~= seq!['n', 'u', 'l', 'l'] || w
                =~= seq!['-', 'i', 'n', 'f']));
        } else if n == 5 {
            assert(w[0] == t@[p as int] && w[1] == t@[p + 1] && w[2] == t@[p + 2] && w[3] == t@[p
                + 3] && w[4] == t@[p + 4]);
            assert(r ==> w =~= seq!['f', 'a', 'l', 's', 'e']);
        }
        if bare_keyword(w) {
            assert(w.len() == n);
        }
    }
    r
}

/// Whether `n` characters `ch` stand at `i`.
fn run_at_exec(t: &Vec<char>, i: usize, n: usize, ch: char) -> (r: bool)
    requires
        i + n < usize::MAX,
    ensures
        r == run_at(t@, i as int, n as nat, ch),
{
    let mut k: usize = 0;
    while k < n
        invariant
            0 <= k <= n,
            i + n < usize::MAX,
            run_at(t@, i as int, n as nat, ch) == run_at(t@, i + k, (n - k) as nat, ch),
        decreases n - k,
    {
        if i + k >= t.len() || t[i + k] != ch {
            return false;
        }
        k = k + 1;
    }
    true
}

proof fn lemma_run_at_len(s: Seq<char>, i: int, n: nat, ch: char)
    ensures
        run_at(s, i, n, ch) && n > 0 ==> 0 <= i && i + n <= s.len(),
    decreases n,
{
    if n > 0 {
        lemma_run_at_len(s, i + 1, (n - 1) as nat, ch);
    }
}

fn closer_at_exec(t: &Vec<char>, i: usize, n: usize, h: usize) -> (r: bool)
    requires
        1 <= n,
        i <= t@.len(),
        t@.len() < usize::MAX,
    ensures
        r == closer_at(t@, i as int, n as nat, h as nat),
        r ==> i + n + h <= t@.len(),
{
    proof {
        lemma_run_at_len(t@, i as int, n as nat, '"');
        lemma_run_at_len(t@, (i + n) as int, h as nat, '#');
    }
    if n > t.len() - i {
        return false;
    }
    if !run_at_exec(t, i, n, '"') {
        return false;
    }
    if h > t.len() - (i + n) {
        return false;
    }
    run_at_exec(t, i + n, h, '#')
}

fn esc_close_exec(t: &Vec<char>, q: usize, n: usize) -> (r: Option<usize>)
    requires
        t@.len() + 8 < usize::MAX,
        q <= t@.len() + 1,
        1 <= n <= 3,
    ensures
        r matches Some(e) ==> esc_close(t@, q as int, n as nat) == Some(e as int) && q <= e && e + n
            <= t@.len(),
        r is None ==> esc_close(t@, q as int, n as nat) is None,
{
    let mut i = q;
    while i < t.len()
        invariant
            t@.len() + 8 < usize::MAX,
            q <= i <= t@.len() + 1,
            1 <= n <= 3,
            esc_close(t@, q as int, n as nat) == esc_close(t@, i as int, n as nat),
        decreases t@.len() + 1 - i,
    {
        if t[i] == '\\' {
            i = i + 2;
        } else if closer_at_exec(t, i, n, 0) {
            return Some(i);
        } else {
            i = i + 1;
        }
    }
    None
}

fn raw_close_exec(t: &Vec<char>, q: usize, n: usize, h: usize) -> (r: Option<usize>)
    requires
        t@.len() + 8 < usize::MAX,
        q <= t@.len() + 1,
        1 <= n <= 3,
    ensures
        r matches Some(e) ==> raw_close(t@, q as int, n as nat, h as nat) == Some(e as int) && q <= e
            && e + n + h <= t@.len(),
        r is None ==> raw_close(t@, q as int, n as nat, h as nat) is None,
{
    let mut i = q;
    while i < t.len()
        invariant
            t@.len() + 8 < usize::MAX,
            q <= i <= t@.len() + 1,
            1 <= n <= 3,
            raw_close(t@, q as int, n as nat, h as nat) == raw_close(t@, i as int, n as nat, h as nat),
        decreases t@.len() + 1 - i,
    {
        if closer_at_exec(t, i, n, h) {
            return Some(i);
        }
        i = i + 1;
    }
    None
}

fn hash_end_exec(t: &Vec<char>, p: usize) -> (r: usize)
    requires
        p <= t@.len(),
    ensures
        r == hash_end(t@, p as int),
        p <= r <= t@.len(),
{
    let mut i = p;
    while i < t.len() && t[i] == '#'
        invariant
            p <= i <= t@.len(),
            hash_end(t@, p as int) == hash_end(t@, i as int),
        decreases t@.len() - i,
    {
        i = i + 1;
    }
    i
}

fn is_escaped_space(c: char) -> (r: bool)
    ensures
        r == escaped_space(c),
{
    is_unicode_space(c) || is_newline(c)
}

fn space_end_exec(b: &Vec<char>, i: usize) -> (r: usize)
    requires
        i <= b@.len(),
    ensures
        r == space_end(b@, i as int),
        i <= r <= b@.len(),
{
    let mut k = i;
    while k < b.len() && is_escaped_space(b[k])
        invariant
            i <= k <= b@.len(),
            space_end(b@, i as int) == space_end(b@, k as int),
        decreases b@.len() - k,
    {
        k = k + 1;
    }
    k
}

fn is_hex_digit(c: char) -> (r: bool)
    ensures
        r == hex_digit(c),
{
    ('0' <= c && c <= '9') || ('a' <= c && c <= 'f') || ('A' <= c && c <= 'F')
}

fn hex_val_exec(c: char) -> (r: u32)
    requires
        hex_digit(c),
    ensures
        r == hex_val(c),
        r < 16,
{
    if '0' <= c && c <= '9' {
        c as u32 - 48
    } else if 'a' <= c && c <= 'f' {
        c as u32 - 87
    } else {
        c as u32 - 55
    }
}

fn hex_end_exec(b: &Vec<char>, i: usize) -> (r: usize)
    requires
        i <= b@.len(),
    ensures
        r == hex_end(b@, i as int),
        i <= r <= b@.len(),
{
    let mut k = i;
    while k < b.len() && is_hex_digit(b[k])
        invariant
            i <= k <= b@.len(),
            hex_end(b@, i as int) == hex_end(b@, k as int),
        decreases b@.len() - k,
    {
        k = k + 1;
    }
    k
}

pub open spec fn pow16(n: nat) -> nat
    decreases n,
{
    if n == 0 {
        1
    } else {
        pow16((n - 1) as nat) * 16
    }
}

proof fn lemma_pow16(n: nat)
    requires
        n <= 5,
    ensures
        pow16(n) <= 1048576,
{
    reveal_with_fuel(pow16, 7);
}

proof fn lemma_hex_step(v: nat, d: nat, p: nat)
    requires
        v < p,
        d < 16,
    ensures
        v * 16 + d < p * 16,
{
    assert(v * 16 + d < p * 16) by (nonlinear_arith)
        requires
            v < p,
            d < 16,
    ;
}

/// The value of the hexadecimal digits `b[from..to]`, at most six of them.
fn hex_value_exec(b: &Vec<char>, from: usize, to: usize) -> (r: u32)
    requires
        from <= to <= b@.len(),
        to - from <= 6,
        forall|k: int| from <= k < to ==> hex_digit(#[trigger] b@[k]),
    ensures
        r == hex_value(b@.subrange(from as int, to as int)),
{
    let mut v: u32 = 0;
    let mut k = from;
    assert(b@.subrange(from as int, from as int) =~= Seq::<char>::empty());
    while k < to
        invariant
            from <= k <= to <= b@.len(),
            to - from <= 6,
            forall|j: int| from <= j < to ==> hex_digit(#[trigger] b@[j]),
            v == hex_value(b@.subrange(from as int, k as int)),
            v < pow16((k - from) as nat),
        decreases to - k,
    {
        let d = hex_val_exec(b[k]);
        proof {
            lemma_pow16((k - from) as nat);
            lemma_hex_step(v as nat, d as nat, pow16((k - from) as nat));
            assert(pow16((k + 1 - from) as nat) == pow16((k - from) as nat) * 16);
            let sub = b@.subrange(from as int, k + 1);
            assert(sub.drop_last() =~= b@.subrange(from as int, k as int));
            assert(sub.last() == b@[k as int]);
        }
        v = v * 16 + d;
        k = k + 1;
    }
    v
}

fn unicode_escape_exec(b: &Vec<char>, i: usize) -> (r: Option<(char, usize)>)
    requires
        i <= b@.len(),
    ensures
        r == match unicode_escape(b@, i as int) {
            Some((c, j)) => Some((c, j as usize)),
            None => None::<(char, usize)>,
        },
        r matches Some((_, j)) ==> i < j <= b@.len(),
{
    if !(i < b.len() && b[i] == '{') {
        return None;
    }
    let e = hex_end_exec(b, i + 1);
    proof {
        lemma_hex_all(b@, i + 1);
    }
    if !(1 <= e - (i + 1) && e - (i + 1) <= 6 && e < b.len() && b[e] == '}') {
        return None;
    }
    let v = hex_value_exec(b, i + 1, e);
    match core::char::from_u32(v) {
        Some(c) => {
            proof {
                vstd::utf8::char_u32_cast(c, v);
            }
            assert(c == scalar_char(v as nat));
            Some((c, e + 1))
        },
        None => None,
    }
}

proof fn lemma_hex_all(b: Seq<char>, i: int)
    requires
        0 <= i <= b.len(),
    ensures
        forall|k: int| i <= k < hex_end(b, i) ==> hex_digit(#[trigger] b[k]),
        i <= hex_end(b, i) <= b.len(),
    decreases b.len() - i,
{
    if i < b.len() && hex_digit(b[i]) {
        lemma_hex_all(b, i + 1);
    }
}

fn simple_escape_exec(e: char) -> (r: Option<char>)
    ensures
        r == simple_escape(e),
{
    if e == 'n' {
        Some('\n')
    } else if e == 'r' {
        Some('\r')
    } else if e == 't' {
        Some('\t')
    } else if e == '\\' {
        Some('\\')
    } else if e == '"' {
        Some('"')
    } else if e == 'b' {
        Some('\u{8}')
    } else if e == 'f' {
        Some('\u{c}')
    } else if e == 's' {
        Some(' ')
    } else {
        None
    }
}

/// The text of a string body, as `decode` gives it.
fn decode_exec(b: &Vec<char>, multi: bool, raw: bool) -> (r: Result<Vec<char>, KdlErrorKind>)
    ensures
        match decode(b@, 0, Seq::empty(), multi, raw) {
            Ok(x) => r matches Ok(v) && v@ == x,
            Err(k) => r == Err::<Vec<char>, KdlErrorKind>(k),
        },
{
    let mut acc: Vec<char> = Vec::new();
    let mut i: usize = 0;
    while i < b.len()
        invariant
            0 <= i <= b@.len(),
            decode(b@, 0, Seq::empty(), multi, raw) == decode(b@, i as int, acc@, multi, raw),
        decreases b@.len() - i,
    {
        let c = b[i];
        if is_disallowed(c) {
            return Err(KdlErrorKind::DisallowedCodePoint(c));
        }
        if is_newline(c) && !multi {
            return Err(KdlErrorKind::UnexpectedChar(c));
        }
        if c == '\\' && !raw {
            if i + 1 >= b.len() {
                return Err(KdlErrorKind::InvalidEscape);
            }
            let e = b[i + 1];
            match simple_escape_exec(e) {
                Some(x) => {
                    acc.push(x);
                    i = i + 2;
                },
                None => {
                    if is_escaped_space(e) {
                        let j = space_end_exec(b, i + 1);
                        i = j;
                    } else if e == 'u' {
                        match unicode_escape_exec(b, i + 2) {
                            Some((x, j)) => {
                                acc.push(x);
                                i = j;
                            },
                            None => {
                                return Err(KdlErrorKind::InvalidUnicodeEscape);
                            },
                        }
                    } else {
                        return Err(KdlErrorKind::InvalidEscape);
                    }
                },
            }
        } else {
            acc.push(c);
            i = i + 1;
        }
    }
    Ok(acc)
}

// ---- multi-line bodies, by position ----

/// The characters `t[from..to]`.
fn sub_vec(t: &Vec<char>, from: usize, to: usize) -> (r: Vec<char>)
    requires
        from <= to <= t@.len(),
    ensures
        r@ == t@.subrange(from as int, to as int),
{
    let mut out: Vec<char> = Vec::new();
    let mut i = from;
    while i < to
        invariant
            from <= i <= to <= t@.len(),
            out@ == t@.subrange(from as int, i as int),
        decreases to - i,
    {
        out.push(t[i]);
        i = i + 1;
        assert(out@ =~= t@.subrange(from as int, i as int));
    }
    out
}

fn norm_exec(b: &Vec<char>) -> (r: Vec<char>)
    ensures
        r@ == norm_from(b@, 0),
{
    let mut acc: Vec<char> = Vec::new();
    let mut i: usize = 0;
    while i < b.len()
        invariant
            0 <= i <= b@.len(),
            acc@ + norm_from(b@, i as int) == norm_from(b@, 0),
        decreases b@.len() - i,
    {
        let ghost before = acc@;
        if b[i] == '\r' && i + 1 < b.len() && b[i + 1] == '\n' {
            acc.push('\n');
            proof {
                assert(before + norm_from(b@, i as int) =~= acc@ + norm_from(b@, i + 2));
            }
            i = i + 2;
        } else if is_newline(b[i]) {
            acc.push('\n');
            proof {
                assert(before + norm_from(b@, i as int) =~= acc@ + norm_from(b@, i + 1));
            }
            i = i + 1;
        } else {
            acc.push(b[i]);
            proof {
                assert(before + norm_from(b@, i as int) =~= acc@ + norm_from(b@, i + 1));
            }
            i = i + 1;
        }
    }
    assert(acc@ + norm_from(b@, i as int) =~= acc@);
    acc
}

/// The lines as texts.
pub open spec fn lines_view(v: Seq<Vec<char>>) -> Seq<Seq<char>> {
    v.map_values(|l: Vec<char>| l@)
}

fn split_lines(b: &Vec<char>) -> (r: Vec<Vec<char>>)
    ensures
        lines_view(r@) == split_on(b@, '\n'),
{
    let mut lines: Vec<Vec<char>> = Vec::new();
    let mut cur: Vec<char> = Vec::new();
    let mut i: usize = 0;
    assert(b@.take(0) =~= Seq::<char>::empty());
    assert(lines_view(lines@).push(cur@) =~= split_on(b@.take(0), '\n'));
    while i < b.len()
        invariant
            0 <= i <= b@.len(),
            lines_view(lines@).push(cur@) == split_on(b@.take(i as int), '\n'),
        decreases b@.len() - i,
    {
        let c = b[i];
        let ghost prev = b@.take(i as int);
        assert(b@.take(i + 1).drop_last() =~= prev);
        assert(b@.take(i + 1).last() == c);
        if c == '\n' {
            let done = cur;
            lines.push(done);
            cur = Vec::new();
            assert(lines_view(lines@).push(cur@) =~= split_on(prev, '\n').push(Seq::empty()));
        } else {
            cur.push(c);
            assert(lines_view(lines@).push(cur@) =~= split_on(prev, '\n').update(
                split_on(prev, '\n').len() - 1,
                split_on(prev, '\n').last().push(c),
            ));
        }
        i = i + 1;
    }
    assert(b@.take(b@.len() as int) =~= b@);
    let ghost before = lines@;
    lines.push(cur);
    assert(lines_view(lines@) =~= lines_view(before).push(cur@));
    lines
}

fn all_space_exec(l: &Vec<char>) -> (r: bool)
    ensures
        r == all_space(l@),
{
    let mut k: usize = 0;
    while k < l.len()
        invariant
            0 <= k <= l@.len(),
            forall|j: int| 0 <= j < k ==> unicode_space(l@[j]),
        decreases l@.len() - k,
    {
        if !is_unicode_space(l[k]) {
            return false;
        }
        k = k + 1;
    }
    true
}

fn dedent_line_exec(l: &Vec<char>, prefix: &Vec<char>) -> (r: Option<Vec<char>>)
    ensures
        match dedent_line(l@, prefix@) {
            Some(x) => r matches Some(v) && v@ == x,
            None => r is None,
        },
{
    if all_space_exec(l) {
        return Some(Vec::new());
    }
    if prefix.len() > l.len() {
        return None;
    }
    let mut k: usize = 0;
    while k < prefix.len()
        invariant
            prefix@.len() <= l@.len(),
            !all_space(l@),
            0 <= k <= prefix@.len(),
            forall|j: int| 0 <= j < k ==> l@[j] == prefix@[j],
        decreases prefix@.len() - k,
    {
        if l[k] != prefix[k] {
            assert(l@.take(prefix@.len() as int)[k as int] != prefix@[k as int]);
            assert(l@.take(prefix@.len() as int) != prefix@);
            return None;
        }
        k = k + 1;
    }
    assert(l@.take(prefix@.len() as int) =~= prefix@);
    let rest = sub_vec(l, prefix.len(), l.len());
    assert(rest@ =~= l@.skip(prefix@.len() as int));
    Some(rest)
}

fn join_exec(d: &Vec<Vec<char>>) -> (r: Vec<char>)
    ensures
        r@ == join_with(lines_view(d@), '\n'),
{
    let mut out: Vec<char> = Vec::new();
    let mut k: usize = 0;
    assert(lines_view(d@).take(0) =~= Seq::<Seq<char>>::empty());
    while k < d.len()
        invariant
            0 <= k <= d@.len(),
            out@ == join_with(lines_view(d@).take(k as int), '\n'),
        decreases d@.len() - k,
    {
        let ghost before = out@;
        let ghost dv = lines_view(d@);
        assert(dv.take(k + 1).drop_last() =~= dv.take(k as int));
        assert(dv.take(k + 1).last() == d@[k as int]@);
        if k > 0 {
            out.push('\n');
        }
        let line = &d[k];
        let mut j: usize = 0;
        let ghost mid = out@;
        while j < line.len()
            invariant
                0 <= j <= line@.len(),
                out@ == mid + line@.take(j as int),
            decreases line@.len() - j,
        {
            out.push(line[j]);
            j = j + 1;
            assert(out@ =~= mid + line@.take(j as int));
        }
        assert(line@.take(line@.len() as int) =~= line@);
        if k == 0 {
            assert(dv.take(1) =~= seq![d@[0]@]);
            assert(out@ =~= join_with(dv.take(1), '\n'));
        } else {
            assert(out@ =~= join_with(dv.take(k + 1), '\n'));
        }
        k = k + 1;
    }
    assert(lines_view(d@).take(d@.len() as int) =~= lines_view(d@));
    out
}

proof fn lemma_dedent_none(ls: Seq<Seq<char>>, prefix: Seq<char>, k: int)
    requires
        0 <= k <= ls.len(),
        dedent_lines(ls.take(k), prefix) is None,
    ensures
        dedent_lines(ls, prefix) is None,
    decreases ls.len() - k,
{
    if k < ls.len() {
        assert(ls.take(k + 1).drop_last() =~= ls.take(k));
        lemma_dedent_none(ls, prefix, k + 1);
    } else {
        assert(ls.take(k) =~= ls);
    }
}

fn dedent_exec(body: &Vec<char>) -> (r: Option<Vec<char>>)
    ensures
        match dedent(body@) {
            Some(x) => r matches Some(v) && v@ == x,
            None => r is None,
        },
{
    let norm = norm_exec(body);
    let lines = split_lines(&norm);
    proof {
        crate::kdl_ast::nsid::lemma_split_on_nonempty(norm@, '\n');
    }
    let n = lines.len();
    let ghost ls = lines_view(lines@);
    assert(ls.last() == lines@[n - 1]@);
    if !all_space_exec(&lines[n - 1]) {
        return None;
    }
    let prefix = &lines[n - 1];
    let mut d: Vec<Vec<char>> = Vec::new();
    let mut k: usize = 0;
    assert(ls.drop_last().take(0) =~= Seq::<Seq<char>>::empty());
    assert(lines_view(d@) =~= Seq::<Seq<char>>::empty());
    while k + 1 < n
        invariant
            n == lines@.len(),
            n >= 1,
            ls == lines_view(lines@),
            ls == split_on(norm_from(body@, 0), '\n'),
            all_space(ls.last()),
            prefix@ == ls.last(),
            0 <= k <= n - 1,
            dedent_lines(ls.drop_last().take(k as int), ls.last()) == Some(lines_view(d@)),
        decreases n - k,
    {
        let ghost lv = ls.drop_last();
        assert(lv.take(k + 1).drop_last() =~= lv.take(k as int));
        assert(lv.take(k + 1).last() == lines@[k as int]@);
        match dedent_line_exec(&lines[k], prefix) {
            Some(x) => {
                let ghost before = d@;
                d.push(x);
                assert(lines_view(d@) =~= lines_view(before).push(x@));
            },
            None => {
                proof {
                    lemma_dedent_none(lv, ls.last(), k + 1);
                }
                return None;
            },
        }
        k = k + 1;
    }
    assert(ls.drop_last().take((n - 1) as int) =~= ls.drop_last());
    Some(join_exec(&d))
}

// ---- strings, by position ----

/// `r` is what `x` describes.
pub open spec fn scan_ok(x: StrScan, r: Result<Option<(Vec<char>, usize)>, KdlErrorKind>) -> bool {
    match x {
        StrScan::NotString => r matches Ok(None),
        StrScan::Invalid(k) => r == Err::<Option<(Vec<char>, usize)>, KdlErrorKind>(k),
        StrScan::Str { text, end } => r matches Ok(Some((v, e))) && v@ == text && e == end,
    }
}

fn text_ok(x: Result<Vec<char>, KdlErrorKind>, end: usize) -> (r: Result<Option<(Vec<char>, usize)>, KdlErrorKind>)
    ensures
        r == match x {
            Ok(v) => Ok(Some((v, end))),
            Err(k) => Err::<Option<(Vec<char>, usize)>, KdlErrorKind>(k),
        },
{
    match x {
        Ok(v) => Ok(Some((v, end))),
        Err(k) => Err(k),
    }
}

fn multi_text_exec(t: &Vec<char>, b0: usize, e: usize, raw: bool) -> (r: Result<Vec<char>, KdlErrorKind>)
    requires
        b0 <= e <= t@.len(),
    ensures
        match multi_text(t@, b0 as int, e as int, raw) {
            Ok(x) => r matches Ok(v) && v@ == x,
            Err(k) => r == Err::<Vec<char>, KdlErrorKind>(k),
        },
{
    let body = sub_vec(t, b0, e);
    match dedent_exec(&body) {
        None => Err(KdlErrorKind::InconsistentIndentation),
        Some(d) => decode_exec(&d, true, raw),
    }
}

fn line_text_exec(t: &Vec<char>, b0: usize, e: usize, raw: bool) -> (r: Result<Vec<char>, KdlErrorKind>)
    requires
        b0 <= e <= t@.len(),
    ensures
        match line_text(t@, b0 as int, e as int, raw) {
            Ok(x) => r matches Ok(v) && v@ == x,
            Err(k) => r == Err::<Vec<char>, KdlErrorKind>(k),
        },
{
    let body = sub_vec(t, b0, e);
    decode_exec(&body, false, raw)
}

/// The start of a multi-line body after the line break at `q`.
fn body_start_exec(t: &Vec<char>, q: usize) -> (r: usize)
    requires
        q < t@.len(),
        t@.len() < usize::MAX,
    ensures
        r == body_start(t@, q as int),
        q < r <= t@.len(),
{
    if t[q] == '\r' && q + 1 < t.len() && t[q + 1] == '\n' {
        q + 2
    } else {
        q + 1
    }
}

fn quoted_scan_exec(t: &Vec<char>, p: usize) -> (r: Result<Option<(Vec<char>, usize)>, KdlErrorKind>)
    requires
        p < t@.len(),
        t@[p as int] == '"',
        t@.len() + 16 < usize::MAX,
    ensures
        scan_ok(quoted_scan(t@, p as int), r),
        r matches Ok(Some((_, e))) ==> p < e <= t@.len(),
{
    if char_at_exec(t, p + 1) == Some('"') && char_at_exec(t, p + 2) == Some('"') {
        match char_at_exec(t, p + 3) {
            Some(c) => {
                if !is_newline(c) {
                    return Err(KdlErrorKind::UnclosedString);
                }
            },
            None => {
                return Err(KdlErrorKind::UnclosedString);
            },
        }
        let b0 = body_start_exec(t, p + 3);
        match esc_close_exec(t, b0, 3) {
            None => Err(KdlErrorKind::UnclosedString),
            Some(e) => text_ok(multi_text_exec(t, b0, e, false), e + 3),
        }
    } else {
        match esc_close_exec(t, p + 1, 1) {
            None => Err(KdlErrorKind::UnclosedString),
            Some(e) => text_ok(line_text_exec(t, p + 1, e, false), e + 1),
        }
    }
}

fn raw_scan_exec(t: &Vec<char>, p: usize) -> (r: Result<Option<(Vec<char>, usize)>, KdlErrorKind>)
    requires
        p < t@.len(),
        t@[p as int] == '#',
        t@.len() + 16 < usize::MAX,
    ensures
        scan_ok(raw_scan(t@, p as int), r),
        r matches Ok(Some((_, e))) ==> p < e <= t@.len(),
{
    let q = hash_end_exec(t, p + 1);
    assert(hash_end(t@, p as int) == hash_end(t@, p + 1));
    let h = q - p;
    if char_at_exec(t, q) != Some('"') {
        return Ok(None);
    }
    if char_at_exec(t, q + 1) == Some('"') && char_at_exec(t, q + 2) == Some('"') {
        match char_at_exec(t, q + 3) {
            Some(c) => {
                if !is_newline(c) {
                    return Err(KdlErrorKind::UnclosedString);
                }
            },
            None => {
                return Err(KdlErrorKind::UnclosedString);
            },
        }
        let b0 = body_start_exec(t, q + 3);
        match raw_close_exec(t, b0, 3, h) {
            None => Err(KdlErrorKind::UnclosedString),
            Some(e) => text_ok(multi_text_exec(t, b0, e, true), e + 3 + h),
        }
    } else {
        match raw_close_exec(t, q + 1, 1, h) {
            None => Err(KdlErrorKind::UnclosedString),
            Some(e) => text_ok(line_text_exec(t, q + 1, e, true), e + 1 + h),
        }
    }
}

fn ident_scan_exec(t: &Vec<char>, p: usize) -> (r: Result<Option<(Vec<char>, usize)>, KdlErrorKind>)
    requires
        p < t@.len(),
        t@.len() + 16 < usize::MAX,
    ensures
        scan_ok(ident_scan(t@, p as int), r),
        r matches Ok(Some((_, e))) ==> p < e <= t@.len(),
{
    if !ident_start_exec(t, p) {
        return Ok(None);
    }
    let e = ident_end_exec(t, p + 1);
    assert(ident_end(t@, p as int) == ident_end(t@, p + 1));
    if bare_keyword_exec(t, p, e) {
        return Err(KdlErrorKind::BareKeyword);
    }
    Ok(Some((sub_vec(t, p, e), e)))
}

/// The string at `p`, as `string_scan` describes it.
fn string_scan_exec(t: &Vec<char>, p: usize) -> (r: Result<Option<(Vec<char>, usize)>, KdlErrorKind>)
    requires
        p <= t@.len(),
        t@.len() + 16 < usize::MAX,
    ensures
        scan_ok(string_scan(t@, p as int), r),
        r matches Ok(Some((_, e))) ==> p < e <= t@.len(),
{
    if p >= t.len() {
        return Ok(None);
    }
    let c = t[p];
    if c == '"' {
        quoted_scan_exec(t, p)
    } else if c == '#' {
        raw_scan_exec(t, p)
    } else {
        ident_scan_exec(t, p)
    }
}

// ---- strings at the scanner ----

/// The outcome of reading a string from cursor `c0` of text `t`, where the
/// scanner stands afterwards: an error is reported where the string begins.
pub open spec fn string_outcome(
    t: Seq<char>,
    c0: Cursor,
    x: StrScan,
    r: Result<Option<String>, KdlError>,
    after: Cursor,
) -> bool {
    match x {
        StrScan::NotString => r matches Ok(None) && after == c0,
        StrScan::Invalid(k) => after == c0 && r == Err::<Option<String>, KdlError>(error_at(c0, k)),
        StrScan::Str { text, end } => after == walk(t, c0, end) && (r matches Ok(Some(v)) && v@
            == text),
    }
}

/// Moves the scanner on to position `end`.
pub fn advance_to(s: &mut Scanner, end: usize)
    requires
        old(s).wf(),
        old(s).cursor().pos <= end <= old(s).text().len(),
    ensures
        final(s).wf(),
        final(s).text() == old(s).text(),
        final(s).cursor() == walk(old(s).text(), old(s).cursor(), end as int),
{
    let ghost t = s.text();
    let ghost c0 = s.cursor();
    proof {
        lemma_walk_zero(t, c0);
    }
    while s.offset() < end
        invariant
            super::scan::walked(s, t, c0),
            s.cursor().pos <= end <= t.len(),
        decreases end - s.cursor().pos,
    {
        super::scan::step_on(s, Ghost(t), Ghost(c0));
    }
}

/// Reads a string (quoted, raw or identifier) at the position; `Ok(None)`,
/// passing nothing, where none begins.
pub fn parse_string_if_available(s: &mut Scanner) -> (r: Result<Option<String>, KdlError>)
    requires
        old(s).wf(),
        old(s).text().len() + 16 < usize::MAX,
    ensures
        final(s).wf(),
        final(s).text() == old(s).text(),
        string_outcome(
            old(s).text(),
            old(s).cursor(),
            string_scan(old(s).text(), old(s).cursor().pos),
            r,
            final(s).cursor(),
        ),
{
    let p = s.offset();
    let res = string_scan_exec(s.chars(), p);
    match res {
        Ok(None) => Ok(None),
        Err(k) => Err(s.make_error(k)),
        Ok(Some((v, e))) => {
            let text = crate::text::string_from_chars(v.as_slice(), 0, v.len());
            assert(v@.subrange(0, v@.len() as int) =~= v@);
            advance_to(s, e);
            Ok(Some(text))
        },
    }
}

} // verus!
