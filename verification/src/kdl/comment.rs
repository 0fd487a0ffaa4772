//! White space and comments of KDL v2: single-line and nested block
//! comments, `ws`, `line-space`, `node-space` and escaped line breaks.
use vstd::prelude::*;
use super::scan::{
    char_at, cursor_ok, error_at, is_newline, is_unicode_space, lemma_step_ok, lemma_walk,
    lemma_walk_step, lemma_walk_trans, lemma_walk_two, newline, newline_step, step, steps,
    unicode_space, walk, Cursor, Scanner,
};
use super::value::{KdlError, KdlErrorKind};

verus! {

/// Where the text of a single-line comment starting at `p` ends: at the
/// first newline character, or at the end of the text.
pub open spec fn line_comment_end(s: Seq<char>, p: int) -> int
    decreases s.len() - p,
{
    if 0 <= p < s.len() && !newline(s[p]) {
        line_comment_end(s, p + 1)
    } else {
        p
    }
}

/// Where a block comment ends that is open `depth` levels deep at `p`:
/// each `/*` opens one more level and each `*/` closes one. `None` when the
/// text ends first.
pub open spec fn block_comment_end(s: Seq<char>, p: int, depth: nat) -> Option<int>
    decreases s.len() - p,
{
    if depth == 0 {
        Some(p)
    } else if p < 0 || p >= s.len() {
        None
    } else if s[p] == '/' && p + 1 < s.len() && s[p + 1] == '*' {
        block_comment_end(s, p + 2, depth + 1)
    } else if s[p] == '*' && p + 1 < s.len() && s[p + 1] == '/' {
        block_comment_end(s, p + 2, (depth - 1) as nat)
    } else {
        block_comment_end(s, p + 1, depth)
    }
}

/// Where a run of `ws` (unicode spaces and block comments) starting at `p`
/// ends; `None` when a block comment in it is never closed.
pub open spec fn ws_end(s: Seq<char>, p: int) -> Option<int>
    decreases s.len() - p,
{
    if 0 <= p < s.len() && unicode_space(s[p]) {
        ws_end(s, p + 1)
    } else if 0 <= p && p + 1 < s.len() && s[p] == '/' && s[p + 1] == '*' {
        match block_comment_end(s, p + 2, 1) {
            Some(e) => if p < e <= s.len() {
                ws_end(s, e)
            } else {
                None
            },
            None => None,
        }
    } else {
        Some(p)
    }
}

/// The cursor after a run of `ws`, or, when a block comment is never
/// closed, the cursor at the end of the text where the error is reported.
pub open spec fn ws(s: Seq<char>, c: Cursor) -> Result<Cursor, Cursor> {
    match ws_end(s, c.pos) {
        Some(e) => Ok(walk(s, c, e)),
        None => Err(walk(s, c, s.len() as int)),
    }
}

/// Passes a newline character at the cursor, if there is one.
pub open spec fn consume_nl(s: Seq<char>, c: Cursor) -> Cursor {
    if char_at(s, c.pos) matches Some(ch) && newline(ch) {
        newline_step(s, c)
    } else {
        c
    }
}

/// An escaped line break `\` ws* (single-line-comment | newline | eof) at the
/// cursor: `Ok(Some(after))` when there is one, `Ok(None)` when there is
/// none, `Err(at)` when a block comment in it is never closed.
pub open spec fn escline(s: Seq<char>, c: Cursor) -> Result<Option<Cursor>, Cursor> {
    if char_at(s, c.pos) != Some('\\') {
        Ok(None)
    } else {
        match ws(s, step(s, c)) {
            Err(at) => Err(at),
            Ok(d) => if char_at(s, d.pos) == Some('/') && char_at(s, d.pos + 1) == Some('/') {
                Ok(Some(consume_nl(s, walk(s, d, line_comment_end(s, d.pos + 2)))))
            } else if char_at(s, d.pos) matches Some(ch) && newline(ch) {
                Ok(Some(newline_step(s, d)))
            } else if d.pos >= s.len() {
                Ok(Some(d))
            } else {
                Ok(None)
            },
        }
    }
}

/// Escaped line breaks, each followed by `ws`, as many as stand at the
/// cursor; the flag says whether there was one.
pub open spec fn esclines(s: Seq<char>, c: Cursor) -> Result<(Cursor, bool), Cursor>
    decreases s.len() - c.pos,
{
    match escline(s, c) {
        Err(at) => Err(at),
        Ok(None) => Ok((c, false)),
        Ok(Some(d)) => match ws(s, d) {
            Err(at) => Err(at),
            Ok(e) => if c.pos < e.pos <= s.len() {
                match esclines(s, e) {
                    Err(at) => Err(at),
                    Ok(r) => Ok((r.0, true)),
                }
            } else {
                Ok((e, true))
            },
        },
    }
}

/// `node-space`: ws, then escaped line breaks each followed by ws. The flag
/// says whether anything was passed.
pub open spec fn node_space(s: Seq<char>, c: Cursor) -> Result<(Cursor, bool), Cursor> {
    match ws(s, c) {
        Err(at) => Err(at),
        Ok(d) => match esclines(s, d) {
            Err(at) => Err(at),
            Ok(r) => Ok((r.0, d.pos != c.pos || r.1)),
        },
    }
}

/// One piece of `line-space` at the cursor: a unicode space, a newline, a
/// comment or an escaped line break. `Ok(None)` when none stands there.
pub open spec fn line_space_piece(s: Seq<char>, c: Cursor) -> Result<Option<Cursor>, Cursor> {
    match char_at(s, c.pos) {
        Some(ch) => if unicode_space(ch) {
            Ok(Some(step(s, c)))
        } else if newline(ch) {
            Ok(Some(newline_step(s, c)))
        } else if ch == '/' {
            if char_at(s, c.pos + 1) == Some('/') {
                Ok(Some(walk(s, c, line_comment_end(s, c.pos + 2))))
            } else if char_at(s, c.pos + 1) == Some('*') {
                match block_comment_end(s, c.pos + 2, 1) {
                    Some(e) => Ok(Some(walk(s, c, e))),
                    None => Err(walk(s, c, s.len() as int)),
                }
            } else {
                Ok(None)
            }
        } else if ch == '\\' {
            escline(s, c)
        } else {
            Ok(None)
        },
        None => Ok(None),
    }
}

/// `line-space*`: pieces of line space as long as they stand at the cursor.
pub open spec fn line_space(s: Seq<char>, c: Cursor) -> Result<Cursor, Cursor>
    decreases s.len() - c.pos,
{
    match line_space_piece(s, c) {
        Err(at) => Err(at),
        Ok(None) => Ok(c),
        Ok(Some(d)) => if c.pos < d.pos <= s.len() {
            line_space(s, d)
        } else {
            Ok(d)
        },
    }
}

/// The outcome of a skip from cursor `c`: the scanner stands at the cursor
/// that the spec gives, and an error is an unclosed block comment there.
pub open spec fn skip_outcome(
    r: Result<(), KdlError>,
    spec: Result<Cursor, Cursor>,
    after: Cursor,
) -> bool {
    match spec {
        Ok(d) => r is Ok && after == d,
        Err(at) => after == at && r == Err::<(), KdlError>(
            error_at(at, KdlErrorKind::UnclosedBlockComment),
        ),
    }
}

pub proof fn lemma_line_comment_end(s: Seq<char>, p: int)
    requires
        0 <= p <= s.len(),
    ensures
        p <= line_comment_end(s, p) <= s.len(),
        line_comment_end(s, p) < s.len() ==> newline(s[line_comment_end(s, p)]),
    decreases s.len() - p,
{
    if p < s.len() && !newline(s[p]) {
        lemma_line_comment_end(s, p + 1);
    }
}

proof fn lemma_block_comment_end(s: Seq<char>, p: int, depth: nat)
    requires
        0 <= p <= s.len(),
    ensures
        block_comment_end(s, p, depth) matches Some(e) ==> p <= e <= s.len() && (depth > 0 ==> p
            < e),
    decreases s.len() - p,
{
    if depth == 0 || p >= s.len() {
    } else if s[p] == '/' && p + 1 < s.len() && s[p + 1] == '*' {
        lemma_block_comment_end(s, p + 2, depth + 1);
    } else if s[p] == '*' && p + 1 < s.len() && s[p + 1] == '/' {
        lemma_block_comment_end(s, p + 2, (depth - 1) as nat);
    } else {
        lemma_block_comment_end(s, p + 1, depth);
    }
}

proof fn lemma_ws_end(s: Seq<char>, p: int)
    requires
        0 <= p <= s.len(),
    ensures
        ws_end(s, p) matches Some(e) ==> p <= e <= s.len(),
    decreases s.len() - p,
{
    if p < s.len() && unicode_space(s[p]) {
        lemma_ws_end(s, p + 1);
    } else if p + 1 < s.len() && s[p] == '/' && s[p + 1] == '*' {
        lemma_block_comment_end(s, p + 2, 1);
        if let Some(e) = block_comment_end(s, p + 2, 1) {
            lemma_ws_end(s, e);
        }
    }
}

/// Passes the text of a single-line comment whose `//` has been passed, up
/// to the newline that ends it (not passed) or the end of the text.
pub fn skip_single_line_comment(s: &mut Scanner) -> (r: Result<(), KdlError>)
    requires
        old(s).wf(),
    ensures
        final(s).wf(),
        final(s).text() == old(s).text(),
        r is Ok,
        final(s).cursor() == walk(
            old(s).text(),
            old(s).cursor(),
            line_comment_end(old(s).text(), old(s).cursor().pos),
        ),
{
    let ghost t = s.text();
    let ghost c0 = s.cursor();
    proof {
        lemma_walk(t, c0, c0.pos);
        assert(steps(t, c0, 0) == c0);
    }
    loop
        invariant
            s.wf(),
            s.text() == t,
            t == old(s).text(),
            c0 == old(s).cursor(),
            cursor_ok(t, c0),
            c0.pos <= s.cursor().pos,
            s.cursor() == walk(t, c0, s.cursor().pos),
            line_comment_end(t, c0.pos) == line_comment_end(t, s.cursor().pos),
        ensures
            s.wf(),
            s.text() == t,
            s.cursor() == walk(t, c0, line_comment_end(t, c0.pos)),
        decreases t.len() - s.cursor().pos,
    {
        match s.peek() {
            Some(ch) => {
                if is_newline(ch) {
                    break;
                }
                proof {
                    lemma_walk_step(t, c0, s.cursor());
                }
                s.advance();
            },
            None => break,
        }
    }
    Ok(())
}

/// Passes the rest of a block comment whose `/*` has been passed, nested
/// comments included; an `UnclosedBlockComment` error at the end of the
/// text when it is never closed.
pub fn skip_block_comment(s: &mut Scanner) -> (r: Result<(), KdlError>)
    requires
        old(s).wf(),
    ensures
        final(s).wf(),
        final(s).text() == old(s).text(),
        skip_outcome(
            r,
            match block_comment_end(old(s).text(), old(s).cursor().pos, 1) {
                Some(e) => Ok(walk(old(s).text(), old(s).cursor(), e)),
                None => Err(walk(old(s).text(), old(s).cursor(), old(s).text().len() as int)),
            },
            final(s).cursor(),
        ),
{
    let ghost t = s.text();
    let ghost c0 = s.cursor();
    proof {
        lemma_walk(t, c0, c0.pos);
        assert(steps(t, c0, 0) == c0);
    }
    let mut depth: usize = 1;
    while depth > 0
        invariant
            s.wf(),
            s.text() == t,
            t == old(s).text(),
            c0 == old(s).cursor(),
            cursor_ok(t, c0),
            c0.pos <= s.cursor().pos,
            s.cursor() == walk(t, c0, s.cursor().pos),
            depth <= s.cursor().pos - c0.pos + 1,
            block_comment_end(t, c0.pos, 1) == block_comment_end(t, s.cursor().pos, depth as nat),
        decreases t.len() - s.cursor().pos,
    {
        let ghost c = s.cursor();
        if s.is_eof() {
            return Err(s.make_error(KdlErrorKind::UnclosedBlockComment));
        }
        proof {
            lemma_walk_step(t, c0, c);
        }
        match s.advance() {
            Some(ch) => {
                if ch == '/' {
                    if s.peek() == Some('*') {
                        proof {
                            lemma_walk_step(t, c0, s.cursor());
                        }
                        s.advance();
                        depth = depth + 1;
                    }
                } else if ch == '*' {
                    if s.peek() == Some('/') {
                        proof {
                            lemma_walk_step(t, c0, s.cursor());
                        }
                        s.advance();
                        depth = depth - 1;
                    }
                }
            },
            None => {},
        }
    }
    Ok(())
}

/// The result of `esclines` with its flag raised when `b` holds.
pub open spec fn or_flag(x: Result<(Cursor, bool), Cursor>, b: bool) -> Result<
    (Cursor, bool),
    Cursor,
> {
    match x {
        Err(at) => Err(at),
        Ok(q) => Ok((q.0, q.1 || b)),
    }
}

proof fn lemma_newline_step(s: Seq<char>, c: Cursor)
    requires
        cursor_ok(s, c),
        c.pos < s.len(),
    ensures
        cursor_ok(s, newline_step(s, c)),
        c.pos < newline_step(s, c).pos,
{
    lemma_step_ok(s, c);
}

proof fn lemma_ws(s: Seq<char>, c: Cursor)
    requires
        cursor_ok(s, c),
    ensures
        ws(s, c) matches Ok(d) ==> cursor_ok(s, d) && c.pos <= d.pos,
        ws(s, c) matches Err(at) ==> cursor_ok(s, at),
{
    lemma_ws_end(s, c.pos);
    lemma_walk(s, c, s.len() as int);
    if let Some(e) = ws_end(s, c.pos) {
        lemma_walk(s, c, e);
    }
}

proof fn lemma_consume_nl(s: Seq<char>, c: Cursor)
    requires
        cursor_ok(s, c),
    ensures
        cursor_ok(s, consume_nl(s, c)),
        c.pos <= consume_nl(s, c).pos,
{
    if c.pos < s.len() {
        lemma_newline_step(s, c);
    }
}

proof fn lemma_escline(s: Seq<char>, c: Cursor)
    requires
        cursor_ok(s, c),
    ensures
        escline(s, c) matches Ok(Some(d)) ==> cursor_ok(s, d) && c.pos < d.pos,
        escline(s, c) matches Err(at) ==> cursor_ok(s, at),
{
    if char_at(s, c.pos) == Some('\\') {
        lemma_step_ok(s, c);
        let c1 = step(s, c);
        lemma_ws(s, c1);
        if let Ok(d) = ws(s, c1) {
            if char_at(s, d.pos) == Some('/') && char_at(s, d.pos + 1) == Some('/') {
                lemma_line_comment_end(s, d.pos + 2);
                lemma_walk(s, d, line_comment_end(s, d.pos + 2));
                lemma_consume_nl(s, walk(s, d, line_comment_end(s, d.pos + 2)));
            } else if char_at(s, d.pos) matches Some(ch) && newline(ch) {
                lemma_newline_step(s, d);
            }
        }
    }
}

proof fn lemma_piece(s: Seq<char>, c: Cursor)
    requires
        cursor_ok(s, c),
    ensures
        line_space_piece(s, c) matches Ok(Some(d)) ==> cursor_ok(s, d) && c.pos < d.pos,
        line_space_piece(s, c) matches Err(at) ==> cursor_ok(s, at),
{
    if c.pos < s.len() {
        lemma_step_ok(s, c);
        lemma_newline_step(s, c);
        lemma_escline(s, c);
        lemma_walk(s, c, s.len() as int);
        if c.pos + 2 <= s.len() {
            lemma_line_comment_end(s, c.pos + 2);
            lemma_walk(s, c, line_comment_end(s, c.pos + 2));
            lemma_block_comment_end(s, c.pos + 2, 1);
            if let Some(e) = block_comment_end(s, c.pos + 2, 1) {
                lemma_walk(s, c, e);
            }
        }
    }
}

/// Passes `ws`: unicode spaces and block comments, as many as stand at the
/// position.
pub fn skip_ws(s: &mut Scanner) -> (r: Result<(), KdlError>)
    requires
        old(s).wf(),
    ensures
        final(s).wf(),
        final(s).text() == old(s).text(),
        skip_outcome(r, ws(old(s).text(), old(s).cursor()), final(s).cursor()),
{
    let ghost t = s.text();
    let ghost c0 = s.cursor();
    proof {
        lemma_walk(t, c0, c0.pos);
        assert(steps(t, c0, 0) == c0);
    }
    loop
        invariant
            s.wf(),
            s.text() == t,
            t == old(s).text(),
            c0 == old(s).cursor(),
            cursor_ok(t, c0),
            c0.pos <= s.cursor().pos,
            s.cursor() == walk(t, c0, s.cursor().pos),
            ws_end(t, c0.pos) == ws_end(t, s.cursor().pos),
        ensures
            s.wf(),
            s.text() == t,
            ws_end(t, c0.pos) == Some(s.cursor().pos),
            s.cursor() == walk(t, c0, s.cursor().pos),
        decreases t.len() - s.cursor().pos,
    {
        let ghost c = s.cursor();
        match s.peek() {
            Some(ch) => {
                if is_unicode_space(ch) {
                    proof {
                        lemma_walk_step(t, c0, c);
                    }
                    s.advance();
                } else if ch == '/' && s.peek_next() == Some('*') {
                    proof {
                        lemma_walk_two(t, c);
                        lemma_walk_trans(t, c0, c.pos, c.pos + 2);
                        lemma_block_comment_end(t, c.pos + 2, 1);
                    }
                    s.advance();
                    s.advance();
                    let ghost c2 = s.cursor();
                    proof {
                        lemma_walk(t, c2, t.len() as int);
                        if let Some(e) = block_comment_end(t, c.pos + 2, 1) {
                            lemma_walk(t, c2, e);
                        }
                    }
                    let res = skip_block_comment(s);
                    proof {
                        lemma_walk_trans(t, c0, c2.pos, s.cursor().pos);
                    }
                    if res.is_err() {
                        return res;
                    }
                } else {
                    break;
                }
            },
            None => break,
        }
    }
    Ok(())
}

/// Passes an escaped line break `\` ws* (single-line-comment | newline |
/// eof) and answers `true`; where none stands at the position, passes
/// nothing and answers `false`.
fn try_skip_escline(s: &mut Scanner) -> (r: Result<bool, KdlError>)
    requires
        old(s).wf(),
    ensures
        final(s).wf(),
        final(s).text() == old(s).text(),
        match escline(old(s).text(), old(s).cursor()) {
            Err(at) => final(s).cursor() == at && r == Err::<bool, KdlError>(
                error_at(at, KdlErrorKind::UnclosedBlockComment),
            ),
            Ok(None) => final(s).cursor() == old(s).cursor() && r == Ok::<bool, KdlError>(false),
            Ok(Some(d)) => final(s).cursor() == d && r == Ok::<bool, KdlError>(true),
        },
{
    let ghost t = s.text();
    let ghost c0 = s.cursor();
    if s.peek() != Some('\\') {
        return Ok(false);
    }
    let saved = s.save();
    proof {
        lemma_step_ok(t, c0);
    }
    s.advance();
    match skip_ws(s) {
        Err(e) => return Err(e),
        Ok(()) => {},
    }
    let ghost d = s.cursor();
    match s.peek() {
        Some(ch) => {
            if ch == '/' && s.peek_next() == Some('/') {
                proof {
                    lemma_walk_two(t, d);
                    lemma_line_comment_end(t, d.pos + 2);
                    lemma_walk_trans(t, d, d.pos + 2, line_comment_end(t, d.pos + 2));
                }
                s.advance();
                s.advance();
                let _ = skip_single_line_comment(s);
                s.consume_newline();
                Ok(true)
            } else if is_newline(ch) {
                s.consume_newline();
                Ok(true)
            } else {
                s.restore(saved);
                Ok(false)
            }
        },
        None => Ok(true),
    }
}

/// Passes `node-space`: ws, then escaped line breaks each followed by ws.
/// Answers whether anything was passed.
pub fn skip_node_space(s: &mut Scanner) -> (r: Result<bool, KdlError>)
    requires
        old(s).wf(),
    ensures
        final(s).wf(),
        final(s).text() == old(s).text(),
        match node_space(old(s).text(), old(s).cursor()) {
            Err(at) => final(s).cursor() == at && r == Err::<bool, KdlError>(
                error_at(at, KdlErrorKind::UnclosedBlockComment),
            ),
            Ok(q) => final(s).cursor() == q.0 && r == Ok::<bool, KdlError>(q.1),
        },
{
    let ghost t = s.text();
    let start = s.offset();
    match skip_ws(s) {
        Err(e) => return Err(e),
        Ok(()) => {},
    }
    let had_ws = s.offset() != start;
    let ghost d = s.cursor();
    let mut had_escline = false;
    loop
        invariant
            s.wf(),
            s.text() == t,
            t == old(s).text(),
            ws(t, old(s).cursor()) == Ok::<Cursor, Cursor>(d),
            had_ws == (d.pos != old(s).cursor().pos),
            esclines(t, d) == or_flag(esclines(t, s.cursor()), had_escline),
        ensures
            s.wf(),
            s.text() == t,
            esclines(t, d) == Ok::<(Cursor, bool), Cursor>((s.cursor(), had_escline)),
        decreases t.len() - s.cursor().pos,
    {
        let ghost c = s.cursor();
        proof {
            lemma_escline(t, c);
            if let Ok(Some(e)) = escline(t, c) {
                lemma_ws(t, e);
            }
        }
        match try_skip_escline(s) {
            Err(e) => return Err(e),
            Ok(false) => break,
            Ok(true) => {
                had_escline = true;
                match skip_ws(s) {
                    Err(e) => return Err(e),
                    Ok(()) => {},
                }
            },
        }
    }
    Ok(had_ws || had_escline)
}

/// Passes `line-space*`: unicode spaces, newlines, comments and escaped line
/// breaks, as many as stand at the position.
pub fn skip_line_space(s: &mut Scanner) -> (r: Result<(), KdlError>)
    requires
        old(s).wf(),
    ensures
        final(s).wf(),
        final(s).text() == old(s).text(),
        skip_outcome(r, line_space(old(s).text(), old(s).cursor()), final(s).cursor()),
{
    let ghost t = s.text();
    loop
        invariant
            s.wf(),
            s.text() == t,
            t == old(s).text(),
            line_space(t, old(s).cursor()) == line_space(t, s.cursor()),
        ensures
            s.wf(),
            s.text() == t,
            line_space(t, old(s).cursor()) == Ok::<Cursor, Cursor>(s.cursor()),
        decreases t.len() - s.cursor().pos,
    {
        let ghost c = s.cursor();
        proof {
            lemma_piece(t, c);
        }
        match s.peek() {
            Some(ch) => {
                if is_unicode_space(ch) {
                    s.advance();
                } else if is_newline(ch) {
                    s.consume_newline();
                } else if ch == '/' {
                    match s.peek_next() {
                        Some(next) => {
                            if next == '/' {
                                proof {
                                    lemma_walk_two(t, c);
                                    lemma_line_comment_end(t, c.pos + 2);
                                    lemma_walk_trans(
                                        t,
                                        c,
                                        c.pos + 2,
                                        line_comment_end(t, c.pos + 2),
                                    );
                                }
                                s.advance();
                                s.advance();
                                let _ = skip_single_line_comment(s);
                            } else if next == '*' {
                                proof {
                                    lemma_walk_two(t, c);
                                    lemma_walk_trans(t, c, c.pos + 2, t.len() as int);
                                    lemma_block_comment_end(t, c.pos + 2, 1);
                                    if let Some(e) = block_comment_end(t, c.pos + 2, 1) {
                                        lemma_walk_trans(t, c, c.pos + 2, e);
                                    }
                                }
                                s.advance();
                                s.advance();
                                match skip_block_comment(s) {
                                    Err(e) => return Err(e),
                                    Ok(()) => {},
                                }
                            } else {
                                break;
                            }
                        },
                        None => break,
                    }
                } else if ch == '\\' {
                    match try_skip_escline(s) {
                        Err(e) => return Err(e),
                        Ok(true) => {},
                        Ok(false) => break,
                    }
                } else {
                    break;
                }
            },
            None => break,
        }
    }
    Ok(())
}

} // verus!
