//! How a string is written in KDL text: bare where it reads back as the same
//! identifier, quoted with escapes otherwise.
use vstd::prelude::*;
use crate::text::str_chars;
use super::scan::{disallowed, identifier_char, is_disallowed, is_identifier_char, is_newline, newline};

verus! {

pub open spec fn ascii_digit(c: char) -> bool {
    '0' <= c && c <= '9'
}

/// The words that a bare identifier may not be.
pub open spec fn is_keyword(s: Seq<char>) -> bool {
    s == seq!['t', 'r', 'u', 'e'] || s == seq!['f', 'a', 'l', 's', 'e'] || s == seq![
        'n',
        'u',
        'l',
        'l',
    ] || s == seq!['i', 'n', 'f'] || s == seq!['-', 'i', 'n', 'f'] || s == seq!['n', 'a', 'n']
}

/// Whether `s` can be written as a bare identifier: it is not empty, all its
/// characters are identifier characters, it is no keyword, and it does not
/// begin like a number (a digit, a sign then a digit, a sign then `.` then a
/// digit, or `.` then a digit).
pub open spec fn bare_ok(s: Seq<char>) -> bool {
    &&& s.len() > 0
    &&& forall|i: int| 0 <= i < s.len() ==> identifier_char(#[trigger] s[i])
    &&& !is_keyword(s)
    &&& !ascii_digit(s[0])
    &&& !((s[0] == '+' || s[0] == '-') && s.len() > 1 && (ascii_digit(s[1]) || (s[1] == '.'
        && s.len() > 2 && ascii_digit(s[2]))))
    &&& !(s[0] == '.' && s.len() > 1 && ascii_digit(s[1]))
}

/// The upper-case hexadecimal digit of `d` (below 16).
pub open spec fn hex_upper(d: u32) -> char {
    if d < 10 {
        ((d + 48) as u8) as char
    } else {
        ((d + 55) as u8) as char
    }
}

/// How one character is written inside a quoted string.
pub open spec fn escape_char(c: char) -> Seq<char> {
    if c == '"' {
        seq!['\\', '"']
    } else if c == '\\' {
        seq!['\\', '\\']
    } else if c == '\u{0008}' {
        seq!['\\', 'b']
    } else if c == '\u{000C}' {
        seq!['\\', 'f']
    } else if c == '\n' {
        seq!['\\', 'n']
    } else if c == '\r' {
        seq!['\\', 'r']
    } else if c == '\t' {
        seq!['\\', 't']
    } else if newline(c) || disallowed(c) {
        seq![
            '\\',
            'u',
            '{',
            hex_upper(((c as u32) / 4096) % 16),
            hex_upper(((c as u32) / 256) % 16),
            hex_upper(((c as u32) / 16) % 16),
            hex_upper((c as u32) % 16),
            '}',
        ]
    } else {
        seq![c]
    }
}

/// The escaped characters of `s`.
pub open spec fn escape_text(s: Seq<char>) -> Seq<char>
    decreases s.len(),
{
    if s.len() == 0 {
        Seq::empty()
    } else {
        escape_text(s.drop_last()) + escape_char(s.last())
    }
}

/// `s` as a quoted string.
pub open spec fn quoted(s: Seq<char>) -> Seq<char> {
    seq!['"'] + escape_text(s) + seq!['"']
}

/// `s` bare where it can be, quoted otherwise.
pub open spec fn ident_text(s: Seq<char>) -> Seq<char> {
    if bare_ok(s) {
        s
    } else {
        quoted(s)
    }
}

fn is_ascii_digit(c: char) -> (r: bool)
    ensures
        r == ascii_digit(c),
{
    '0' <= c && c <= '9'
}

fn is_keyword_chars(s: &Vec<char>) -> (r: bool)
    ensures
        r == is_keyword(s@),
{
    let n = s.len();
    let r = (n == 4 && s[0] == 't' && s[1] == 'r' && s[2] == 'u' && s[3] == 'e') || (n == 5 && s[0]
        == 'f' && s[1] == 'a' && s[2] == 'l' && s[3] == 's' && s[4] == 'e') || (n == 4 && s[0]
        == 'n' && s[1] == 'u' && s[2] == 'l' && s[3] == 'l') || (n == 3 && s[0] == 'i' && s[1]
        == 'n' && s[2] == 'f') || (n == 4 && s[0] == '-' && s[1] == 'i' && s[2] == 'n' && s[3]
        == 'f') || (n == 3 && s[0] == 'n' && s[1] == 'a' && s[2] == 'n');
    proof {
        if n == 4 {
            if r && s[0] == 't' {
                assert(s@ =~= seq!['t', 'r', 'u', 'e']);
            }
            if r && s[0] == 'n' {
                assert(s@ =~= seq!['n', 'u', 'l', 'l']);
            }
            if r && s[0] == '-' {
                assert(s@ =~= seq!['-', 'i', 'n', 'f']);
            }
        }
        if n == 5 && r {
            assert(s@ =~= seq!['f', 'a', 'l', 's', 'e']);
        }
        if n == 3 && r {
            if s[0] == 'i' {
                assert(s@ =~= seq!['i', 'n', 'f']);
            } else {
                assert(s@ =~= seq!['n', 'a', 'n']);
            }
        }
        if !r {
            if s@ == seq!['t', 'r', 'u', 'e'] || s@ == seq!['n', 'u', 'l', 'l'] || s@ == seq![
                '-',
                'i',
                'n',
                'f',
            ] || s@ == seq!['f', 'a', 'l', 's', 'e'] || s@ == seq!['i', 'n', 'f'] || s@ == seq![
                'n',
                'a',
                'n',
            ] {
                assert(false);
            }
        }
    }
    r
}

/// Whether `s` can be written as a bare identifier.
pub fn can_be_bare_identifier(s: &str) -> (r: bool)
    ensures
        r == bare_ok(s@),
{
    let cs = str_chars(s);
    if cs.len() == 0 {
        return false;
    }
    let mut i: usize = 0;
    while i < cs.len()
        invariant
            cs@ == s@,
            0 <= i <= cs@.len(),
            forall|j: int| 0 <= j < i ==> identifier_char(#[trigger] cs@[j]),
        decreases cs@.len() - i,
    {
        if !is_identifier_char(cs[i]) {
            return false;
        }
        i = i + 1;
    }
    if is_keyword_chars(&cs) {
        return false;
    }
    let first = cs[0];
    if is_ascii_digit(first) {
        return false;
    }
    if first == '+' || first == '-' {
        if cs.len() == 1 {
            return true;
        }
        let second = cs[1];
        if is_ascii_digit(second) {
            return false;
        }
        if second == '.' && cs.len() > 2 && is_ascii_digit(cs[2]) {
            return false;
        }
    }
    if first == '.' && cs.len() > 1 && is_ascii_digit(cs[1]) {
        return false;
    }
    true
}

fn hex_upper_char(d: u32) -> (r: char)
    requires
        d < 16,
    ensures
        r == hex_upper(d),
{
    if d < 10 {
        ((d + 48) as u8) as char
    } else {
        ((d + 55) as u8) as char
    }
}

/// Appends `s` as a quoted string, with escapes.
pub fn write_quoted_string(out: &mut String, s: &str)
    ensures
        final(out)@ == old(out)@ + quoted(s@),
{
    let cs = str_chars(s);
    let ghost start = out@;
    out.push('"');
    let mut i: usize = 0;
    while i < cs.len()
        invariant
            cs@ == s@,
            0 <= i <= cs@.len(),
            out@ == start + seq!['"'] + escape_text(cs@.take(i as int)),
        decreases cs@.len() - i,
    {
        let ch = cs[i];
        let ghost before = out@;
        if ch == '"' {
            out.push('\\');
            out.push('"');
        } else if ch == '\\' {
            out.push('\\');
            out.push('\\');
        } else if ch == '\u{0008}' {
            out.push('\\');
            out.push('b');
        } else if ch == '\u{000C}' {
            out.push('\\');
            out.push('f');
        } else if ch == '\n' {
            out.push('\\');
            out.push('n');
        } else if ch == '\r' {
            out.push('\\');
            out.push('r');
        } else if ch == '\t' {
            out.push('\\');
            out.push('t');
        } else if is_newline(ch) || is_disallowed(ch) {
            let u = ch as u32;
            out.push('\\');
            out.push('u');
            out.push('{');
            out.push(hex_upper_char((u / 4096) % 16));
            out.push(hex_upper_char((u / 256) % 16));
            out.push(hex_upper_char((u / 16) % 16));
            out.push(hex_upper_char(u % 16));
            out.push('}');
        } else {
            out.push(ch);
        }
        proof {
            assert(cs@.take(i + 1).drop_last() =~= cs@.take(i as int));
            assert(out@ =~= before + escape_char(ch));
        }
        i = i + 1;
    }
    out.push('"');
    proof {
        assert(cs@.take(cs@.len() as int) =~= cs@);
        assert(out@ =~= start + quoted(s@));
    }
}

/// Appends `s` bare where it can be, quoted otherwise.
pub fn write_identifier_or_string(out: &mut String, s: &str)
    ensures
        final(out)@ == old(out)@ + ident_text(s@),
{
    if can_be_bare_identifier(s) {
        out.push_str(s);
    } else {
        write_quoted_string(out, s);
    }
}

} // verus!
