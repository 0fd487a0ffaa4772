//! A scanner over the characters of KDL text that keeps the line and
//! column of its position, and the character classes of KDL v2.
use vstd::prelude::*;
use crate::text::str_chars;
use super::value::{KdlError, KdlErrorKind};

verus! {

/// KDL v2 unicode-space: the horizontal white space (no newline).
pub open spec fn unicode_space(c: char) -> bool {
    c == '\u{0009}' || c == '\u{0020}' || c == '\u{00A0}' || c == '\u{1680}' || ('\u{2000}' <= c
        && c <= '\u{200A}') || c == '\u{202F}' || c == '\u{205F}' || c == '\u{3000}'
}

/// KDL v2 newline characters.
pub open spec fn newline(c: char) -> bool {
    c == '\u{000A}' || c == '\u{000D}' || c == '\u{0085}' || c == '\u{000B}' || c == '\u{000C}'
        || c == '\u{2028}' || c == '\u{2029}'
}

/// Code points that KDL v2 does not allow in a document. The byte order mark
/// is one of them; a leading one is skipped before scanning.
pub open spec fn disallowed(c: char) -> bool {
    (c <= '\u{0008}') || ('\u{000E}' <= c && c <= '\u{001F}') || c == '\u{007F}' || ('\u{200E}'
        <= c && c <= '\u{200F}') || ('\u{202A}' <= c && c <= '\u{202E}') || ('\u{2066}' <= c && c
        <= '\u{2069}') || c == '\u{FEFF}'
}

/// KDL v2 identifier-char.
pub open spec fn identifier_char(c: char) -> bool {
    !unicode_space(c) && !newline(c) && !disallowed(c) && c != '\\' && c != '/' && c != '('
        && c != ')' && c != '{' && c != '}' && c != ';' && c != '[' && c != ']' && c != '"' && c
        != '#' && c != '='
}

pub fn is_unicode_space(ch: char) -> (r: bool)
    ensures
        r == unicode_space(ch),
{
    ch == '\u{0009}' || ch == '\u{0020}' || ch == '\u{00A0}' || ch == '\u{1680}' || ('\u{2000}'
        <= ch && ch <= '\u{200A}') || ch == '\u{202F}' || ch == '\u{205F}' || ch == '\u{3000}'
}

pub fn is_newline(ch: char) -> (r: bool)
    ensures
        r == newline(ch),
{
    ch == '\u{000A}' || ch == '\u{000D}' || ch == '\u{0085}' || ch == '\u{000B}' || ch
        == '\u{000C}' || ch == '\u{2028}' || ch == '\u{2029}'
}

pub fn is_disallowed(ch: char) -> (r: bool)
    ensures
        r == disallowed(ch),
{
    (ch <= '\u{0008}') || ('\u{000E}' <= ch && ch <= '\u{001F}') || ch == '\u{007F}' || (
    '\u{200E}' <= ch && ch <= '\u{200F}') || ('\u{202A}' <= ch && ch <= '\u{202E}') || (
    '\u{2066}' <= ch && ch <= '\u{2069}') || ch == '\u{FEFF}'
}

pub fn is_identifier_char(ch: char) -> (r: bool)
    ensures
        r == identifier_char(ch),
{
    !is_unicode_space(ch) && !is_newline(ch) && !is_disallowed(ch) && ch != '\\' && ch != '/'
        && ch != '(' && ch != ')' && ch != '{' && ch != '}' && ch != ';' && ch != '[' && ch != ']'
        && ch != '"' && ch != '#' && ch != '='
}

/// A position in the text with its 1-based line and column.
pub struct Cursor {
    pub pos: int,
    pub line: int,
    pub col: int,
}

/// A cursor that can stand in text `s`: lines and columns start at 1, and
/// together never count more than the characters passed.
pub open spec fn cursor_ok(s: Seq<char>, c: Cursor) -> bool {
    0 <= c.pos <= s.len() && 1 <= c.line && 1 <= c.col && c.line + c.col <= c.pos + 2
}

/// One character passed: a newline character starts a new line.
pub open spec fn step(s: Seq<char>, c: Cursor) -> Cursor {
    if c.pos < s.len() {
        if newline(s[c.pos]) {
            Cursor { pos: c.pos + 1, line: c.line + 1, col: 1 }
        } else {
            Cursor { pos: c.pos + 1, line: c.line, col: c.col + 1 }
        }
    } else {
        c
    }
}

/// `n` characters passed one at a time.
pub open spec fn steps(s: Seq<char>, c: Cursor, n: nat) -> Cursor
    decreases n,
{
    if n == 0 {
        c
    } else {
        steps(s, step(s, c), (n - 1) as nat)
    }
}

/// The cursor at position `to`, passing each character on the way.
pub open spec fn walk(s: Seq<char>, c: Cursor, to: int) -> Cursor {
    steps(s, c, (to - c.pos) as nat)
}

/// One newline passed; CR LF counts as a single newline.
pub open spec fn newline_step(s: Seq<char>, c: Cursor) -> Cursor {
    let d = step(s, c);
    if s[c.pos] == '\r' && c.pos + 1 < s.len() && s[c.pos + 1] == '\n' {
        Cursor { pos: d.pos + 1, line: d.line, col: 1 }
    } else {
        d
    }
}

/// The character at the cursor, if any.
pub open spec fn char_at(s: Seq<char>, p: int) -> Option<char> {
    if 0 <= p < s.len() {
        Some(s[p])
    } else {
        None
    }
}

pub proof fn lemma_step_ok(s: Seq<char>, c: Cursor)
    requires
        cursor_ok(s, c),
    ensures
        cursor_ok(s, step(s, c)),
        c.pos < s.len() ==> step(s, c).pos == c.pos + 1,
{
}

pub proof fn lemma_walk(s: Seq<char>, c: Cursor, to: int)
    requires
        cursor_ok(s, c),
        c.pos <= to <= s.len(),
    ensures
        cursor_ok(s, walk(s, c, to)),
        walk(s, c, to).pos == to,
    decreases to - c.pos,
{
    if c.pos < to {
        lemma_walk(s, step(s, c), to);
    }
}

/// Walking nowhere leaves the cursor where it is.
pub proof fn lemma_walk_zero(s: Seq<char>, c: Cursor)
    ensures
        walk(s, c, c.pos) == c,
{
    assert(steps(s, c, 0) == c);
}

/// Walking to `mid` and then on to `to` is walking to `to`.
pub proof fn lemma_walk_trans(s: Seq<char>, c: Cursor, mid: int, to: int)
    requires
        cursor_ok(s, c),
        c.pos <= mid <= to <= s.len(),
    ensures
        walk(s, walk(s, c, mid), to) == walk(s, c, to),
    decreases mid - c.pos,
{
    lemma_walk(s, c, mid);
    if c.pos < mid {
        lemma_step_ok(s, c);
        lemma_walk_trans(s, step(s, c), mid, to);
    }
}

/// Passing one character from a cursor that was walked to is walking one
/// further.
pub proof fn lemma_walk_step(s: Seq<char>, c0: Cursor, c: Cursor)
    requires
        cursor_ok(s, c0),
        c0.pos <= c.pos < s.len(),
        c == walk(s, c0, c.pos),
    ensures
        step(s, c) == walk(s, c0, c.pos + 1),
        cursor_ok(s, step(s, c)),
{
    lemma_walk(s, c0, c.pos);
    lemma_walk_trans(s, c0, c.pos, c.pos + 1);
    assert(steps(s, c, 1) == steps(s, step(s, c), 0));
}

/// Passing two characters is walking two further.
pub proof fn lemma_walk_two(s: Seq<char>, c: Cursor)
    requires
        cursor_ok(s, c),
        c.pos + 2 <= s.len(),
    ensures
        step(s, c) == walk(s, c, c.pos + 1),
        step(s, step(s, c)) == walk(s, c, c.pos + 2),
        cursor_ok(s, step(s, c)),
        cursor_ok(s, step(s, step(s, c))),
{
    assert(steps(s, c, 0) == c);
    lemma_walk_step(s, c, c);
    lemma_walk_step(s, c, step(s, c));
}

/// A saved scanner position.
#[derive(Clone, Copy)]
pub struct ScannerState {
    pos: usize,
    line: usize,
    col: usize,
}

impl ScannerState {
    pub closed spec fn cursor(&self) -> Cursor {
        Cursor { pos: self.pos as int, line: self.line as int, col: self.col as int }
    }

    /// The 1-based line of the saved position.
    pub fn line(&self) -> (r: usize)
        ensures
            r == self.cursor().line,
    {
        self.line
    }

    /// The 1-based column of the saved position.
    pub fn col(&self) -> (r: usize)
        ensures
            r == self.cursor().col,
    {
        self.col
    }
}

/// A scanner over the characters of a text, tracking line and column.
pub struct Scanner {
    chars: Vec<char>,
    pos: usize,
    line: usize,
    col: usize,
}

impl Scanner {
    /// The characters scanned.
    pub closed spec fn text(&self) -> Seq<char> {
        self.chars@
    }

    /// Where the scanner stands.
    pub closed spec fn cursor(&self) -> Cursor {
        Cursor { pos: self.pos as int, line: self.line as int, col: self.col as int }
    }

    pub open spec fn wf(&self) -> bool {
        self.text().len() < usize::MAX && cursor_ok(self.text(), self.cursor())
    }

    /// The character at the scanner's position.
    pub open spec fn current(&self) -> Option<char> {
        char_at(self.text(), self.cursor().pos)
    }

    /// A scanner at the start of `input`, on line 1, column 1.
    pub fn new(input: &str) -> (r: Scanner)
        requires
            input@.len() < usize::MAX,
        ensures
            r.wf(),
            r.text() == input@,
            r.cursor() == (Cursor { pos: 0, line: 1, col: 1 }),
    {
        Scanner { chars: str_chars(input), pos: 0, line: 1, col: 1 }
    }

    /// The line and column of the position.
    pub fn position(&self) -> (r: (usize, usize))
        ensures
            r.0 == self.cursor().line,
            r.1 == self.cursor().col,
    {
        (self.line, self.col)
    }

    /// The current character, if any.
    pub fn peek(&self) -> (r: Option<char>)
        requires
            self.wf(),
        ensures
            r == self.current(),
    {
        if self.pos < self.chars.len() {
            Some(self.chars[self.pos])
        } else {
            None
        }
    }

    /// The character after the current one, if any.
    pub fn peek_next(&self) -> (r: Option<char>)
        requires
            self.wf(),
        ensures
            r == char_at(self.text(), self.cursor().pos + 1),
    {
        if self.pos + 1 < self.chars.len() {
            Some(self.chars[self.pos + 1])
        } else {
            None
        }
    }

    /// Passes the current character and returns it; `None` at the end.
    pub fn advance(&mut self) -> (r: Option<char>)
        requires
            old(self).wf(),
        ensures
            final(self).wf(),
            final(self).text() == old(self).text(),
            final(self).cursor() == step(old(self).text(), old(self).cursor()),
            r == old(self).current(),
    {
        proof {
            lemma_step_ok(self.chars@, self.cursor());
        }
        if self.pos < self.chars.len() {
            let ch = self.chars[self.pos];
            if is_newline(ch) {
                self.line = self.line + 1;
                self.col = 1;
            } else {
                self.col = self.col + 1;
            }
            self.pos = self.pos + 1;
            Some(ch)
        } else {
            None
        }
    }

    /// Passes `expected` if it is the current character; else an
    /// `UnexpectedChar` or `UnexpectedEof` error at the position.
    pub fn expect(&mut self, expected: char) -> (r: Result<(), KdlError>)
        requires
            old(self).wf(),
        ensures
            final(self).wf(),
            final(self).text() == old(self).text(),
            match old(self).current() {
                Some(c) => if c == expected {
                    r is Ok && final(self).cursor() == step(old(self).text(), old(self).cursor())
                } else {
                    *final(self) == *old(self) && r == Err::<(), KdlError>(
                        old(self).error_at(KdlErrorKind::UnexpectedChar(c)),
                    )
                },
                None => *final(self) == *old(self) && r == Err::<(), KdlError>(
                    old(self).error_at(KdlErrorKind::UnexpectedEof),
                ),
            },
    {
        match self.peek() {
            Some(ch) => {
                if ch == expected {
                    self.advance();
                    Ok(())
                } else {
                    Err(self.make_error(KdlErrorKind::UnexpectedChar(ch)))
                }
            },
            None => Err(self.make_error(KdlErrorKind::UnexpectedEof)),
        }
    }

    /// Whether the whole text has been passed.
    pub fn is_eof(&self) -> (r: bool)
        requires
            self.wf(),
        ensures
            r == (self.current() is None),
    {
        self.pos >= self.chars.len()
    }

    /// The error of kind `kind` at the scanner's position.
    pub open spec fn error_at(&self, kind: KdlErrorKind) -> KdlError {
        error_at(self.cursor(), kind)
    }

    /// An error of kind `kind` at the position.
    pub fn make_error(&self, kind: KdlErrorKind) -> (r: KdlError)
        requires
            self.wf(),
        ensures
            r == self.error_at(kind),
            r.line >= 1 && r.col >= 1,
    {
        KdlError { line: self.line, col: self.col, kind }
    }

    /// All the characters scanned.
    pub fn chars(&self) -> (r: &Vec<char>)
        ensures
            r@ == self.text(),
    {
        &self.chars
    }

    /// The position, counted in characters from the start.
    pub fn offset(&self) -> (r: usize)
        ensures
            r == self.cursor().pos,
    {
        self.pos
    }

    /// The characters from position `start` up to `end`.
    pub fn slice(&self, start: usize, end: usize) -> (r: String)
        requires
            start <= end <= self.text().len(),
        ensures
            r@ == self.text().subrange(start as int, end as int),
    {
        crate::text::string_from_chars(self.chars.as_slice(), start, end)
    }

    /// The characters from position `start` up to `end`, one by one.
    pub fn slice_chars(&self, start: usize, end: usize) -> (r: Vec<char>)
        requires
            start <= end <= self.text().len(),
        ensures
            r@ == self.text().subrange(start as int, end as int),
    {
        let mut out: Vec<char> = Vec::new();
        let mut i: usize = start;
        while i < end
            invariant
                start <= i <= end <= self.chars@.len(),
                out@ == self.chars@.subrange(start as int, i as int),
            decreases end - i,
        {
            out.push(self.chars[i]);
            proof {
                assert(out@ =~= self.chars@.subrange(start as int, i + 1));
            }
            i = i + 1;
        }
        out
    }

    /// Passes a byte order mark at the position, if there is one, leaving the
    /// column at 1.
    pub fn skip_bom(&mut self)
        requires
            old(self).wf(),
        ensures
            final(self).wf(),
            final(self).text() == old(self).text(),
            final(self).cursor() == (if old(self).current() == Some('\u{FEFF}') {
                Cursor { pos: old(self).cursor().pos + 1, line: old(self).cursor().line, col: 1 }
            } else {
                old(self).cursor()
            }),
    {
        if self.pos < self.chars.len() && self.chars[self.pos] == '\u{FEFF}' {
            self.pos = self.pos + 1;
            self.col = 1;
        }
    }

    /// Passes one newline, taking CR LF as a single one; `false` when the
    /// current character is no newline.
    pub fn consume_newline(&mut self) -> (r: bool)
        requires
            old(self).wf(),
        ensures
            final(self).wf(),
            final(self).text() == old(self).text(),
            r == (old(self).current() matches Some(c) && newline(c)),
            final(self).cursor() == (if r {
                newline_step(old(self).text(), old(self).cursor())
            } else {
                old(self).cursor()
            }),
    {
        match self.peek() {
            Some(ch) => {
                if is_newline(ch) {
                    let was_cr = ch == '\r';
                    self.advance();
                    if was_cr && self.pos < self.chars.len() && self.chars[self.pos] == '\n' {
                        self.pos = self.pos + 1;
                        self.col = 1;
                    }
                    true
                } else {
                    false
                }
            },
            None => false,
        }
    }

    /// The position, to come back to with `restore`.
    pub fn save(&self) -> (r: ScannerState)
        ensures
            r.cursor() == self.cursor(),
    {
        ScannerState { pos: self.pos, line: self.line, col: self.col }
    }

    /// Goes back to a saved position.
    pub fn restore(&mut self, state: ScannerState)
        requires
            old(self).wf(),
            cursor_ok(old(self).text(), state.cursor()),
        ensures
            final(self).wf(),
            final(self).text() == old(self).text(),
            final(self).cursor() == state.cursor(),
    {
        self.pos = state.pos;
        self.line = state.line;
        self.col = state.col;
    }
}

/// Restoring a saved position gives the scanner back the character, the
/// position and the line and column it had when the position was saved,
/// whatever was passed in between.
pub proof fn law_save_restore(saved_from: Scanner, st: ScannerState, restored: Scanner)
    requires
        saved_from.wf(),
        st.cursor() == saved_from.cursor(),
        restored.text() == saved_from.text(),
        restored.cursor() == st.cursor(),
    ensures
        restored.current() == saved_from.current(),
        restored.cursor().pos == saved_from.cursor().pos,
        restored.cursor().line == saved_from.cursor().line,
        restored.cursor().col == saved_from.cursor().col,
{
}

/// The error of kind `kind` at cursor `c`.
pub open spec fn error_at(c: Cursor, kind: KdlErrorKind) -> KdlError {
    KdlError { line: c.line as usize, col: c.col as usize, kind }
}

/// The scanner walked from `c0`, standing at `pos`.
pub open spec fn walked(s: &Scanner, t: Seq<char>, c0: Cursor) -> bool {
    &&& s.wf()
    &&& s.text() == t
    &&& cursor_ok(t, c0)
    &&& c0.pos <= s.cursor().pos
    &&& s.cursor() == walk(t, c0, s.cursor().pos)
}

/// Passes one character, keeping the scanner walked from `c0`.
pub fn step_on(s: &mut Scanner, Ghost(t): Ghost<Seq<char>>, Ghost(c0): Ghost<Cursor>)
    requires
        walked(old(s), t, c0),
        old(s).cursor().pos < t.len(),
    ensures
        walked(final(s), t, c0),
        final(s).cursor().pos == old(s).cursor().pos + 1,
{
    proof {
        lemma_walk_step(t, c0, s.cursor());
    }
    s.advance();
}

} // verus!
