//! Pieces of the KDL v2 document grammar: the version marker, keywords,
//! slashdashes and node terminators.
use vstd::prelude::*;
use crate::text::str_chars;
use super::comment::{
    line_comment_end, line_space, node_space, skip_line_space, skip_node_space,
    skip_single_line_comment,
};
use super::scan::{
    char_at, error_at, is_newline, is_unicode_space, lemma_walk, lemma_walk_trans,
    lemma_walk_two, lemma_walk_zero, newline, newline_step, step_on, unicode_space, walk, walked,
    Cursor, Scanner,
};
use super::value::{KdlError, KdlErrorKind, KdlValue};

verus! {

/// The first position at or after `p` that holds no unicode space.
pub open spec fn spaces_end(s: Seq<char>, p: int) -> int
    decreases s.len() - p,
{
    if 0 <= p < s.len() && unicode_space(s[p]) {
        spaces_end(s, p + 1)
    } else {
        p
    }
}

/// Whether `word` stands in `s` at `p`.
pub open spec fn word_at(s: Seq<char>, p: int, word: Seq<char>) -> bool {
    0 <= p && p + word.len() <= s.len() && s.subrange(p, p + word.len()) == word
}

pub open spec fn kdl_version_word() -> Seq<char> {
    seq!['k', 'd', 'l', '-', 'v', 'e', 'r', 's', 'i', 'o', 'n']
}

/// Where the scanner stands after a version marker `/-` unicode-space*
/// `kdl-version` unicode-space+ (`1` | `2`) unicode-space* (newline | eof)
/// at cursor `c`; at `c` itself when there is none.
pub open spec fn after_version_marker(s: Seq<char>, c: Cursor) -> Cursor {
    let p1 = spaces_end(s, c.pos + 2);
    let p2 = p1 + 11;
    let p3 = spaces_end(s, p2 + 1);
    let p4 = spaces_end(s, p3 + 1);
    if !(char_at(s, c.pos) == Some('/') && char_at(s, c.pos + 1) == Some('-')) {
        c
    } else if !word_at(s, p1, kdl_version_word()) {
        c
    } else if !(char_at(s, p2) matches Some(ch) && unicode_space(ch)) {
        c
    } else if !(char_at(s, p3) == Some('1') || char_at(s, p3) == Some('2')) {
        c
    } else if char_at(s, p4) matches Some(ch) && newline(ch) {
        newline_step(s, walk(s, c, p4))
    } else if p4 >= s.len() {
        walk(s, c, p4)
    } else {
        c
    }
}

proof fn lemma_spaces_end(s: Seq<char>, p: int)
    requires
        0 <= p <= s.len(),
    ensures
        p <= spaces_end(s, p) <= s.len(),
    decreases s.len() - p,
{
    if p < s.len() && unicode_space(s[p]) {
        lemma_spaces_end(s, p + 1);
    }
}

/// Passes unicode spaces.
fn skip_spaces(s: &mut Scanner, Ghost(t): Ghost<Seq<char>>, Ghost(c0): Ghost<Cursor>)
    requires
        walked(old(s), t, c0),
    ensures
        walked(final(s), t, c0),
        final(s).cursor().pos == spaces_end(t, old(s).cursor().pos),
{
    let ghost p0 = s.cursor().pos;
    loop
        invariant
            walked(s, t, c0),
            p0 <= s.cursor().pos,
            spaces_end(t, p0) == spaces_end(t, s.cursor().pos),
        ensures
            walked(s, t, c0),
            s.cursor().pos == spaces_end(t, p0),
        decreases t.len() - s.cursor().pos,
    {
        match s.peek() {
            Some(ch) => {
                if is_unicode_space(ch) {
                    step_on(s, Ghost(t), Ghost(c0));
                } else {
                    break;
                }
            },
            None => break,
        }
    }
}

/// Passes `literal` when it stands at the position, and answers whether it
/// did; passes nothing otherwise.
pub fn try_consume_literal(s: &mut Scanner, literal: &str) -> (r: bool)
    requires
        old(s).wf(),
    ensures
        final(s).wf(),
        final(s).text() == old(s).text(),
        r == word_at(old(s).text(), old(s).cursor().pos, literal@),
        final(s).cursor() == (if r {
            walk(old(s).text(), old(s).cursor(), old(s).cursor().pos + literal@.len())
        } else {
            old(s).cursor()
        }),
{
    let ghost t = s.text();
    let ghost c0 = s.cursor();
    proof {
        lemma_walk_zero(t, c0);
    }
    let saved = s.save();
    let word = str_chars(literal);
    let mut i: usize = 0;
    while i < word.len()
        invariant
            walked(s, t, c0),
            t == old(s).text(),
            c0 == old(s).cursor(),
            saved.cursor() == c0,
            word@ == literal@,
            0 <= i <= word@.len(),
            s.cursor().pos == c0.pos + i,
            s.cursor().pos <= t.len(),
            t.subrange(c0.pos, c0.pos + i) == word@.take(i as int),
        decreases word@.len() - i,
    {
        match s.peek() {
            Some(ch) => {
                if ch == word[i] {
                    proof {
                        assert(t.subrange(c0.pos, c0.pos + i + 1) =~= t.subrange(c0.pos, c0.pos + i).push(ch));
                        assert(word@.take(i + 1) =~= word@.take(i as int).push(word@[i as int]));
                    }
                    step_on(s, Ghost(t), Ghost(c0));
                } else {
                    proof {
                        if word_at(t, c0.pos, literal@) {
                            assert(t.subrange(c0.pos, c0.pos + word@.len())[i as int] == t[c0.pos + i]);
                        }
                    }
                    s.restore(saved);
                    return false;
                }
            },
            None => {
                s.restore(saved);
                return false;
            },
        }
        i = i + 1;
    }
    proof {
        assert(word@.take(word@.len() as int) =~= word@);
    }
    true
}

/// Passes a version marker `/- kdl-version 2` and the line break after it,
/// when one stands at the position; passes nothing otherwise.
pub fn skip_version_marker(s: &mut Scanner) -> (r: Result<(), KdlError>)
    requires
        old(s).wf(),
    ensures
        final(s).wf(),
        final(s).text() == old(s).text(),
        r is Ok,
        final(s).cursor() == after_version_marker(old(s).text(), old(s).cursor()),
{
    let ghost t = s.text();
    let ghost c0 = s.cursor();
    proof {
        lemma_walk_zero(t, c0);
    }
    let saved = s.save();
    if s.peek() != Some('/') {
        return Ok(());
    }
    step_on(s, Ghost(t), Ghost(c0));
    if s.peek() != Some('-') {
        s.restore(saved);
        return Ok(());
    }
    step_on(s, Ghost(t), Ghost(c0));
    skip_spaces(s, Ghost(t), Ghost(c0));
    let ghost p1 = s.cursor().pos;
    let marker = "kdl-version";
    proof {
        reveal_strlit("kdl-version");
        assert(marker@ =~= kdl_version_word());
        lemma_spaces_end(t, c0.pos + 2);
    }
    if !try_consume_literal(s, marker) {
        s.restore(saved);
        return Ok(());
    }
    proof {
        lemma_walk_trans(t, c0, p1, p1 + 11);
        lemma_walk(t, c0, p1 + 11);
        assert(s.cursor() == walk(t, c0, p1 + 11));
        assert(walked(s, t, c0));
    }
    match s.peek() {
        Some(ch) => {
            if is_unicode_space(ch) {
                step_on(s, Ghost(t), Ghost(c0));
            } else {
                s.restore(saved);
                return Ok(());
            }
        },
        None => {
            s.restore(saved);
            return Ok(());
        },
    }
    skip_spaces(s, Ghost(t), Ghost(c0));
    match s.peek() {
        Some(ch) => {
            if ch == '1' || ch == '2' {
                step_on(s, Ghost(t), Ghost(c0));
            } else {
                s.restore(saved);
                return Ok(());
            }
        },
        None => {
            s.restore(saved);
            return Ok(());
        },
    }
    skip_spaces(s, Ghost(t), Ghost(c0));
    if !s.consume_newline() && !s.is_eof() {
        s.restore(saved);
        return Ok(());
    }
    Ok(())
}

/// The keyword `#true`, `#false` or `#null` at `p`, with its length.
pub open spec fn keyword_at(s: Seq<char>, p: int) -> Option<(KdlValue, int)> {
    if char_at(s, p) != Some('#') {
        None
    } else if word_at(s, p + 1, seq!['t', 'r', 'u', 'e']) {
        Some((KdlValue::Bool(true), 5))
    } else if word_at(s, p + 1, seq!['f', 'a', 'l', 's', 'e']) {
        Some((KdlValue::Bool(false), 6))
    } else if word_at(s, p + 1, seq!['n', 'u', 'l', 'l']) {
        Some((KdlValue::Null, 5))
    } else {
        None
    }
}

/// Reads a keyword `#true`, `#false` or `#null` at the position; `None`,
/// passing nothing, where none stands.
pub fn try_parse_keyword(s: &mut Scanner) -> (r: Result<Option<KdlValue>, KdlError>)
    requires
        old(s).wf(),
    ensures
        final(s).wf(),
        final(s).text() == old(s).text(),
        match keyword_at(old(s).text(), old(s).cursor().pos) {
            Some((v, n)) => r == Ok::<Option<KdlValue>, KdlError>(Some(v)) && final(s).cursor()
                == walk(old(s).text(), old(s).cursor(), old(s).cursor().pos + n),
            None => r == Ok::<Option<KdlValue>, KdlError>(None) && final(s).cursor()
                == old(s).cursor(),
        },
{
    let ghost t = s.text();
    let ghost c0 = s.cursor();
    proof {
        lemma_walk_zero(t, c0);
    }
    if s.peek() != Some('#') {
        return Ok(None);
    }
    let saved = s.save();
    step_on(s, Ghost(t), Ghost(c0));
    let ghost c1 = s.cursor();
    let word_true = "true";
    let word_false = "false";
    let word_null = "null";
    proof {
        reveal_strlit("true");
        reveal_strlit("false");
        reveal_strlit("null");
        assert(word_true@ =~= seq!['t', 'r', 'u', 'e']);
        assert(word_false@ =~= seq!['f', 'a', 'l', 's', 'e']);
        assert(word_null@ =~= seq!['n', 'u', 'l', 'l']);
    }
    if try_consume_literal(s, word_true) {
        proof {
            lemma_walk_trans(t, c0, c1.pos, c1.pos + 4);
        }
        return Ok(Some(KdlValue::Bool(true)));
    }
    if try_consume_literal(s, word_false) {
        proof {
            lemma_walk_trans(t, c0, c1.pos, c1.pos + 5);
        }
        return Ok(Some(KdlValue::Bool(false)));
    }
    if try_consume_literal(s, word_null) {
        proof {
            lemma_walk_trans(t, c0, c1.pos, c1.pos + 4);
        }
        return Ok(Some(KdlValue::Null));
    }
    s.restore(saved);
    Ok(None)
}

/// The outcome of a step that may meet an unclosed block comment: `Ok` with
/// where the scanner stands, or the error there.
pub open spec fn flag_outcome(
    r: Result<bool, KdlError>,
    spec: Result<(Cursor, bool), Cursor>,
    after: Cursor,
) -> bool {
    match spec {
        Ok((d, b)) => after == d && r == Ok::<bool, KdlError>(b),
        Err(at) => after == at && r == Err::<bool, KdlError>(
            error_at(at, KdlErrorKind::UnclosedBlockComment),
        ),
    }
}

/// A slashdash `/-` and the line space after it, at cursor `c`.
pub open spec fn slashdash(s: Seq<char>, c: Cursor) -> Result<(Cursor, bool), Cursor> {
    if char_at(s, c.pos) == Some('/') && char_at(s, c.pos + 1) == Some('-') {
        match line_space(s, walk(s, c, c.pos + 2)) {
            Ok(d) => Ok((d, true)),
            Err(at) => Err(at),
        }
    } else {
        Ok((c, false))
    }
}

/// Passes a slashdash `/-` and the line space after it, and answers whether
/// there was one; passes nothing otherwise.
pub fn try_consume_slashdash(s: &mut Scanner) -> (r: Result<bool, KdlError>)
    requires
        old(s).wf(),
    ensures
        final(s).wf(),
        final(s).text() == old(s).text(),
        flag_outcome(r, slashdash(old(s).text(), old(s).cursor()), final(s).cursor()),
{
    let ghost t = s.text();
    let ghost c0 = s.cursor();
    if s.peek() != Some('/') {
        return Ok(false);
    }
    let saved = s.save();
    if s.peek_next() == Some('-') {
        proof {
            lemma_walk_two(t, c0);
        }
        s.advance();
        s.advance();
        match skip_line_space(s) {
            Ok(()) => Ok(true),
            Err(e) => Err(e),
        }
    } else {
        Ok(false)
    }
}

/// A slashdash before an entry or a block of children, at cursor `c`: after
/// it, a `}`, a `;` or the end of the text is an `InvalidSlashdash` error.
pub open spec fn entry_slashdash_outcome(
    s: Seq<char>,
    c: Cursor,
    r: Result<bool, KdlError>,
    after: Cursor,
) -> bool {
    match slashdash(s, c) {
        Err(at) => after == at && r == Err::<bool, KdlError>(
            error_at(at, KdlErrorKind::UnclosedBlockComment),
        ),
        Ok((d, false)) => after == d && r == Ok::<bool, KdlError>(false),
        Ok((d, true)) => after == d && if char_at(s, d.pos) == Some('}') || char_at(s, d.pos)
            == Some(';') || d.pos >= s.len() {
            r == Err::<bool, KdlError>(error_at(d, KdlErrorKind::InvalidSlashdash))
        } else {
            r == Ok::<bool, KdlError>(true)
        },
    }
}

/// Passes a slashdash before an entry or a block of children, and answers
/// whether there was one; a `}`, `;` or the end of the text after it is an
/// `InvalidSlashdash` error.
pub fn try_consume_entry_slashdash(s: &mut Scanner) -> (r: Result<bool, KdlError>)
    requires
        old(s).wf(),
    ensures
        final(s).wf(),
        final(s).text() == old(s).text(),
        entry_slashdash_outcome(old(s).text(), old(s).cursor(), r, final(s).cursor()),
{
    match try_consume_slashdash(s) {
        Err(e) => Err(e),
        Ok(false) => Ok(false),
        Ok(true) => match s.peek() {
            Some(ch) => {
                if ch == '}' || ch == ';' {
                    Err(s.make_error(KdlErrorKind::InvalidSlashdash))
                } else {
                    Ok(true)
                }
            },
            None => Err(s.make_error(KdlErrorKind::InvalidSlashdash)),
        },
    }
}

/// What ends a node at cursor `c`: `;`, a single-line comment (with the
/// line break after it), a newline, the end of the text, or `}` inside a
/// block of children. `Err` holds the character that cannot end a node.
pub open spec fn node_terminator(s: Seq<char>, c: Cursor, in_children: bool) -> Result<
    Cursor,
    char,
> {
    match char_at(s, c.pos) {
        None => Ok(c),
        Some(ch) => if ch == ';' {
            Ok(walk(s, c, c.pos + 1))
        } else if ch == '/' {
            if char_at(s, c.pos + 1) == Some('/') {
                let d = walk(s, c, line_comment_end(s, c.pos + 2));
                if char_at(s, d.pos) matches Some(n) && newline(n) {
                    Ok(newline_step(s, d))
                } else {
                    Ok(d)
                }
            } else {
                Ok(c)
            }
        } else if newline(ch) {
            Ok(newline_step(s, c))
        } else if ch == '}' && in_children {
            Ok(c)
        } else {
            Err(ch)
        },
    }
}

/// Passes what ends a node; an `UnexpectedChar` error where something else
/// stands.
pub fn skip_node_terminator(s: &mut Scanner, in_children: bool) -> (r: Result<(), KdlError>)
    requires
        old(s).wf(),
    ensures
        final(s).wf(),
        final(s).text() == old(s).text(),
        match node_terminator(old(s).text(), old(s).cursor(), in_children) {
            Ok(d) => r is Ok && final(s).cursor() == d,
            Err(ch) => *final(s) == *old(s) && r == Err::<(), KdlError>(
                old(s).error_at(KdlErrorKind::UnexpectedChar(ch)),
            ),
        },
{
    let ghost t = s.text();
    let ghost c0 = s.cursor();
    proof {
        lemma_walk_zero(t, c0);
    }
    match s.peek() {
        Some(ch) => {
            if ch == ';' {
                step_on(s, Ghost(t), Ghost(c0));
                Ok(())
            } else if ch == '/' {
                if s.peek_next() == Some('/') {
                    proof {
                        lemma_walk_two(t, c0);
                        super::comment::lemma_line_comment_end(t, c0.pos + 2);
                        lemma_walk_trans(t, c0, c0.pos + 2, line_comment_end(t, c0.pos + 2));
                    }
                    s.advance();
                    s.advance();
                    let _ = skip_single_line_comment(s);
                    s.consume_newline();
                    Ok(())
                } else {
                    Ok(())
                }
            } else if is_newline(ch) {
                s.consume_newline();
                Ok(())
            } else if ch == '}' && in_children {
                Ok(())
            } else {
                Err(s.make_error(KdlErrorKind::UnexpectedChar(ch)))
            }
        },
        None => Ok(()),
    }
}

/// Passes node space where it may stand, answering whether any was there.
pub fn skip_node_space_optional(s: &mut Scanner) -> (r: Result<bool, KdlError>)
    requires
        old(s).wf(),
    ensures
        final(s).wf(),
        final(s).text() == old(s).text(),
        match node_space(old(s).text(), old(s).cursor()) {
            Err(at) => final(s).cursor() == at && r == Err::<bool, KdlError>(
                error_at(at, KdlErrorKind::UnclosedBlockComment),
            ),
            Ok(q) => final(s).cursor() == q.0 && r == Ok::<bool, KdlError>(q.1),
        },
{
    skip_node_space(s)
}

} // verus!
