//! The grammar of a KDL v2 document, as what reading it from a cursor
//! gives: nodes with their type annotations, names, entries and blocks of
//! children, slashdashed nodes, entries and blocks left out, and the first
//! error met, at its line and column.
use vstd::prelude::*;
use super::comment::{line_space, node_space, ws};
use super::number::{keyword_number_end, number_i64, scan_number, NumberScan};
use super::scan::{char_at, error_at, newline, walk, Cursor};
use super::string::{string_scan, StrScan};
use super::syntax::{after_version_marker, keyword_at, node_terminator, slashdash};
use super::value::{val_view, Entry, KdlError, KdlErrorKind, Node, Val};

verus! {

/// One character passed.
pub open spec fn adv(s: Seq<char>, c: Cursor) -> Cursor {
    walk(s, c, c.pos + 1)
}

/// `line-space*`, an unclosed block comment being the error.
pub open spec fn lsp(s: Seq<char>, c: Cursor) -> Result<Cursor, KdlError> {
    match line_space(s, c) {
        Ok(d) => Ok(d),
        Err(at) => Err(error_at(at, KdlErrorKind::UnclosedBlockComment)),
    }
}

/// `ws*`, an unclosed block comment being the error.
pub open spec fn wsp(s: Seq<char>, c: Cursor) -> Result<Cursor, KdlError> {
    match ws(s, c) {
        Ok(d) => Ok(d),
        Err(at) => Err(error_at(at, KdlErrorKind::UnclosedBlockComment)),
    }
}

/// `node-space*`, with whether any was passed.
pub open spec fn nsp(s: Seq<char>, c: Cursor) -> Result<(Cursor, bool), KdlError> {
    match node_space(s, c) {
        Ok(q) => Ok(q),
        Err(at) => Err(error_at(at, KdlErrorKind::UnclosedBlockComment)),
    }
}

/// The error for what stands at `c` where something else was wanted.
pub open spec fn unexpected_at(s: Seq<char>, c: Cursor) -> KdlError {
    match char_at(s, c.pos) {
        Some(ch) => error_at(c, KdlErrorKind::UnexpectedChar(ch)),
        None => error_at(c, KdlErrorKind::UnexpectedEof),
    }
}

/// The character `ch` at `c`.
pub open spec fn expect_at(s: Seq<char>, c: Cursor, ch: char) -> Result<Cursor, KdlError> {
    if char_at(s, c.pos) == Some(ch) {
        Ok(adv(s, c))
    } else {
        Err(unexpected_at(s, c))
    }
}

/// A string at `c`, if one begins there.
pub open spec fn str_at(s: Seq<char>, c: Cursor) -> Result<(Option<Seq<char>>, Cursor), KdlError> {
    match string_scan(s, c.pos) {
        StrScan::NotString => Ok((None, c)),
        StrScan::Invalid(k) => Err(error_at(c, k)),
        StrScan::Str { text, end } => Ok((Some(text), walk(s, c, end))),
    }
}

/// A string at `c`, which must stand there.
pub open spec fn str_req(s: Seq<char>, c: Cursor) -> Result<(Seq<char>, Cursor), KdlError> {
    match str_at(s, c) {
        Err(e) => Err(e),
        Ok((None, _)) => Err(unexpected_at(s, c)),
        Ok((Some(t), d)) => Ok((t, d)),
    }
}

/// A type annotation `(` ws* string ws* `)` at `c`, if one begins there.
pub open spec fn type_ann(s: Seq<char>, c: Cursor) -> Result<(Option<Seq<char>>, Cursor), KdlError> {
    if char_at(s, c.pos) != Some('(') {
        Ok((None, c))
    } else {
        match wsp(s, adv(s, c)) {
            Err(e) => Err(e),
            Ok(c2) => match str_req(s, c2) {
                Err(e) => Err(e),
                Ok((t, c3)) => match wsp(s, c3) {
                    Err(e) => Err(e),
                    Ok(c4) => match expect_at(s, c4, ')') {
                        Err(e) => Err(e),
                        Ok(c5) => Ok((Some(t), c5)),
                    },
                },
            },
        }
    }
}

/// A number at `c`, if one begins there.
pub open spec fn num_val(s: Seq<char>, c: Cursor) -> Result<(Option<Val>, Cursor), KdlError> {
    match scan_number(s, c.pos) {
        NumberScan::NotNumber => Ok((None, c)),
        NumberScan::Invalid(q) => Err(error_at(walk(s, c, q), KdlErrorKind::InvalidNumber)),
        NumberScan::Number { end, radix, float } => Ok(
            (
                Some(
                    Val::Num(
                        s.subrange(c.pos, end),
                        number_i64(s.subrange(c.pos, end), radix, float),
                    ),
                ),
                walk(s, c, end),
            ),
        ),
    }
}

/// A keyword number `#inf`, `#-inf` or `#nan` at `c`.
pub open spec fn kwnum_val(s: Seq<char>, c: Cursor) -> Option<(Val, Cursor)> {
    match keyword_number_end(s, c.pos) {
        Some(end) => Some((Val::Num(s.subrange(c.pos, end), None), walk(s, c, end))),
        None => None,
    }
}

/// A keyword `#true`, `#false` or `#null` at `c`.
pub open spec fn kw_val(s: Seq<char>, c: Cursor) -> Option<(Val, Cursor)> {
    match keyword_at(s, c.pos) {
        Some((v, n)) => Some((val_view(v), walk(s, c, c.pos + n))),
        None => None,
    }
}

/// A value at `c`: a keyword number, a keyword, a number or a string.
pub open spec fn value_at(s: Seq<char>, c: Cursor) -> Result<(Val, Cursor), KdlError> {
    match kwnum_val(s, c) {
        Some(x) => Ok(x),
        None => match kw_val(s, c) {
            Some(x) => Ok(x),
            None => match num_val(s, c) {
                Err(e) => Err(e),
                Ok((Some(v), d)) => Ok((v, d)),
                Ok((None, _)) => match str_req(s, c) {
                    Err(e) => Err(e),
                    Ok((t, d)) => Ok((Val::Str(t), d)),
                },
            },
        },
    }
}

/// After the string `text` that ends at `c3`: a property `text=value` when
/// `=` follows (a type annotation before the key is an error), else the
/// string as an argument.
pub open spec fn key_or_arg(s: Seq<char>, ty: Option<Seq<char>>, text: Seq<char>, c3: Cursor) -> Result<
    (Option<Entry>, Cursor),
    KdlError,
> {
    match wsp(s, c3) {
        Err(e) => Err(e),
        Ok(c4) => if char_at(s, c4.pos) == Some('=') {
            if ty is Some {
                Err(error_at(c4, KdlErrorKind::UnexpectedChar('=')))
            } else {
                match wsp(s, adv(s, c4)) {
                    Err(e) => Err(e),
                    Ok(c5) => match type_ann(s, c5) {
                        Err(e) => Err(e),
                        Ok((vt, c6)) => match (if vt is Some {
                            match nsp(s, c6) {
                                Err(e) => Err(e),
                                Ok((c7, _)) => Ok(c7),
                            }
                        } else {
                            Ok(c6)
                        }) {
                            Err(e) => Err(e),
                            Ok(c7) => match value_at(s, c7) {
                                Err(e) => Err(e),
                                Ok((v, c8)) => Ok(
                                    (Some(Entry::Prop { key: text, ty: vt, value: v }), c8),
                                ),
                            },
                        },
                    },
                }
            }
        } else {
            Ok((Some(Entry::Arg { ty, value: Val::Str(text) }), c3))
        },
    }
}

/// What may not follow a type annotation of an entry: a slashdash, a node
/// terminator, `}` or the end.
pub open spec fn after_type_error(s: Seq<char>, c: Cursor) -> Option<KdlError> {
    if char_at(s, c.pos) == Some('/') && char_at(s, c.pos + 1) == Some('-') {
        Some(error_at(c, KdlErrorKind::InvalidSlashdash))
    } else {
        match char_at(s, c.pos) {
            None => Some(error_at(c, KdlErrorKind::UnexpectedChar(' '))),
            Some(ch) => if ch == ';' || ch == '}' || newline(ch) {
                Some(error_at(c, KdlErrorKind::UnexpectedChar(ch)))
            } else if ch == '/' && char_at(s, c.pos + 1) == Some('/') {
                Some(error_at(c, KdlErrorKind::UnexpectedChar('/')))
            } else {
                None
            },
        }
    }
}

/// An entry after its optional type annotation `ty`, at `c`.
pub open spec fn entry_body(s: Seq<char>, ty: Option<Seq<char>>, c: Cursor) -> Result<
    (Option<Entry>, Cursor),
    KdlError,
> {
    if char_at(s, c.pos) == Some('#') {
        match str_at(s, c) {
            Err(e) => Err(e),
            Ok((Some(t), c3)) => key_or_arg(s, ty, t, c3),
            Ok((None, _)) => match kwnum_val(s, c) {
                Some((v, c3)) => Ok((Some(Entry::Arg { ty, value: v }), c3)),
                None => match kw_val(s, c) {
                    Some((v, c3)) => Ok((Some(Entry::Arg { ty, value: v }), c3)),
                    None => Ok((None, c)),
                },
            },
        }
    } else {
        match num_val(s, c) {
            Err(e) => Err(e),
            Ok((Some(v), c3)) => Ok((Some(Entry::Arg { ty, value: v }), c3)),
            Ok((None, _)) => match str_at(s, c) {
                Err(e) => Err(e),
                Ok((Some(t), c3)) => key_or_arg(s, ty, t, c3),
                Ok((None, _)) => Ok((None, c)),
            },
        }
    }
}

/// An entry at `c`: an argument or a property, with its type annotation;
/// `None` where none begins.
pub open spec fn entry_at(s: Seq<char>, c: Cursor) -> Result<(Option<Entry>, Cursor), KdlError> {
    match type_ann(s, c) {
        Err(e) => Err(e),
        Ok((ty, c1)) => if ty is Some {
            match nsp(s, c1) {
                Err(e) => Err(e),
                Ok((c2, _)) => match after_type_error(s, c2) {
                    Some(e) => Err(e),
                    None => entry_body(s, ty, c2),
                },
            }
        } else {
            entry_body(s, ty, c1)
        },
    }
}

/// A slashdash before an entry or a block of children, with whether there
/// was one; `}`, `;` or the end after it is an error.
pub open spec fn entry_sd(s: Seq<char>, c: Cursor) -> Result<(Cursor, bool), KdlError> {
    match slashdash(s, c) {
        Err(at) => Err(error_at(at, KdlErrorKind::UnclosedBlockComment)),
        Ok((d, false)) => Ok((d, false)),
        Ok((d, true)) => if char_at(s, d.pos) == Some('}') || char_at(s, d.pos) == Some(';')
            || d.pos >= s.len() {
            Err(error_at(d, KdlErrorKind::InvalidSlashdash))
        } else {
            Ok((d, true))
        },
    }
}

/// What may follow a slashdashed block of children: another block, a
/// slashdash or comment, a node terminator, `}` or the end.
pub open spec fn after_dropped_block(s: Seq<char>, c: Cursor) -> bool {
    match char_at(s, c.pos) {
        None => true,
        Some(ch) => ch == '{' || ch == ';' || ch == '/' || ch == '}' || newline(ch),
    }
}

/// The error of a position that did not move on; never met in a document.
pub open spec fn stuck(c: Cursor) -> KdlError {
    error_at(c, KdlErrorKind::UnexpectedEof)
}

/// Slashdashed blocks of children after a node's block, each `/-`
/// line-space* `{` nodes `}` after node-space; where the scanner stops.
pub open spec fn children_tail(s: Seq<char>, c: Cursor) -> Result<Cursor, KdlError>
    decreases s.len() - c.pos, 0nat,
{
    match nsp(s, c) {
        Err(e) => Err(e),
        Ok((c1, _)) => if char_at(s, c1.pos) == Some('/') && char_at(s, c1.pos + 1) == Some('-') {
            match lsp(s, walk(s, c1, c1.pos + 2)) {
                Err(e) => Err(e),
                Ok(c3) => if char_at(s, c3.pos) == Some('{') {
                    let c4 = adv(s, c3);
                    if c.pos < c4.pos <= s.len() {
                        match nodes_from(s, c4, true, Seq::empty()) {
                            Err(e) => Err(e),
                            Ok((_, c5)) => match expect_at(s, c5, '}') {
                                Err(e) => Err(e),
                                Ok(c6) => if c.pos < c6.pos <= s.len() {
                                    children_tail(s, c6)
                                } else {
                                    Err(stuck(c6))
                                },
                            },
                        }
                    } else {
                        Err(stuck(c4))
                    }
                } else {
                    Ok(c1)
                },
            }
        } else {
            Ok(c1)
        },
    }
}

/// The entries and the block of children of a node whose type annotation
/// `ty`, name `name` and first entries `es` have been read, from `c`.
pub open spec fn entries_from(
    s: Seq<char>,
    c: Cursor,
    ty: Option<Seq<char>>,
    name: Seq<char>,
    es: Seq<Entry>,
) -> Result<(Node, Cursor), KdlError>
    decreases s.len() - c.pos, 0nat,
{
    match nsp(s, c) {
        Err(e) => Err(e),
        Ok((c1, had)) => if !had && !(char_at(s, c1.pos) == Some('{') || (char_at(s, c1.pos) == Some(
            '/',
        ) && char_at(s, c1.pos + 1) == Some('-'))) {
            Ok((Node { ty, name, entries: es, children: None }, c1))
        } else {
            match entry_sd(s, c1) {
                Err(e) => Err(e),
                Ok((c2, sd)) => if char_at(s, c2.pos) == Some('{') {
                    let c3 = adv(s, c2);
                    if !(c.pos < c3.pos <= s.len()) {
                        Err(stuck(c3))
                    } else {
                        match nodes_from(s, c3, true, Seq::empty()) {
                            Err(e) => Err(e),
                            Ok((kids, c4)) => match expect_at(s, c4, '}') {
                                Err(e) => Err(e),
                                Ok(c5) => if !(c.pos < c5.pos <= s.len()) {
                                    Err(stuck(c5))
                                } else if sd {
                                    match nsp(s, c5) {
                                        Err(e) => Err(e),
                                        Ok((c6, _)) => if !after_dropped_block(s, c6) {
                                            Err(error_at(c6, KdlErrorKind::InvalidSlashdash))
                                        } else if c.pos < c6.pos <= s.len() {
                                            entries_from(s, c6, ty, name, es)
                                        } else {
                                            Err(stuck(c6))
                                        },
                                    }
                                } else {
                                    match children_tail(s, c5) {
                                        Err(e) => Err(e),
                                        Ok(c6) => Ok(
                                            (Node { ty, name, entries: es, children: Some(kids) }, c6),
                                        ),
                                    }
                                },
                            },
                        }
                    }
                } else {
                    match entry_at(s, c2) {
                        Err(e) => Err(e),
                        Ok((None, c3)) => Ok((Node { ty, name, entries: es, children: None }, c3)),
                        Ok((Some(en), c3)) => if c.pos < c3.pos <= s.len() {
                            entries_from(
                                s,
                                c3,
                                ty,
                                name,
                                if sd {
                                    es
                                } else {
                                    es.push(en)
                                },
                            )
                        } else {
                            Err(stuck(c3))
                        },
                    }
                },
            }
        },
    }
}

/// A node at `c`: its type annotation, name, entries and children; `None`
/// where no name begins.
pub open spec fn node_at(s: Seq<char>, c: Cursor) -> Result<(Option<Node>, Cursor), KdlError>
    decreases s.len() - c.pos, 1nat,
{
    match type_ann(s, c) {
        Err(e) => Err(e),
        Ok((ty, c1)) => match (if ty is Some {
            match nsp(s, c1) {
                Err(e) => Err(e),
                Ok((d, _)) => Ok(d),
            }
        } else {
            Ok(c1)
        }) {
            Err(e) => Err(e),
            Ok(c2) => match str_at(s, c2) {
                Err(e) => Err(e),
                Ok((None, _)) => if ty is Some {
                    Err(error_at(c2, KdlErrorKind::UnexpectedEof))
                } else {
                    Ok((None, c2))
                },
                Ok((Some(name), c3)) => if c.pos <= c3.pos <= s.len() {
                    match entries_from(s, c3, ty, name, Seq::empty()) {
                        Err(e) => Err(e),
                        Ok((n, c4)) => Ok((Some(n), c4)),
                    }
                } else {
                    Err(stuck(c3))
                },
            },
        },
    }
}

/// Nodes from `c` on, after the nodes `acc`: line space, then a node
/// (left out after a slashdash) and what ends it, up to the end of the
/// text or, inside a block of children (`ic`), the closing `}`.
pub open spec fn nodes_from(s: Seq<char>, c: Cursor, ic: bool, acc: Seq<Node>) -> Result<
    (Seq<Node>, Cursor),
    KdlError,
>
    decreases s.len() - c.pos, 2nat,
{
    match lsp(s, c) {
        Err(e) => Err(e),
        Ok(c1) => if (ic && char_at(s, c1.pos) == Some('}')) || c1.pos >= s.len() {
            Ok((acc, c1))
        } else {
            match slashdash(s, c1) {
                Err(at) => Err(error_at(at, KdlErrorKind::UnclosedBlockComment)),
                Ok((c2, sd)) => match lsp(s, c2) {
                    Err(e) => Err(e),
                    Ok(c3) => if (ic && char_at(s, c3.pos) == Some('}')) || c3.pos >= s.len() {
                        if sd {
                            Err(error_at(c3, KdlErrorKind::InvalidSlashdash))
                        } else {
                            Ok((acc, c3))
                        }
                    } else if !(c.pos <= c3.pos <= s.len()) {
                        Err(stuck(c3))
                    } else {
                        match node_at(s, c3) {
                            Err(e) => Err(e),
                            Ok((None, _)) => Err(unexpected_at(s, c3)),
                            Ok((Some(n), c4)) => match (if !ic || char_at(s, c4.pos) != Some('}') {
                                match node_terminator(s, c4, ic) {
                                    Ok(d) => Ok(d),
                                    Err(ch) => Err(error_at(c4, KdlErrorKind::UnexpectedChar(ch))),
                                }
                            } else {
                                Ok(c4)
                            }) {
                                Err(e) => Err(e),
                                Ok(c5) => if c.pos < c5.pos <= s.len() {
                                    nodes_from(
                                        s,
                                        c5,
                                        ic,
                                        if sd {
                                            acc
                                        } else {
                                            acc.push(n)
                                        },
                                    )
                                } else {
                                    Err(stuck(c5))
                                },
                            },
                        }
                    },
                },
            }
        },
    }
}

/// Where reading a document starts: after a byte order mark and a version
/// marker.
pub open spec fn document_start(t: Seq<char>) -> Cursor {
    let c0 = Cursor { pos: 0, line: 1, col: 1 };
    let c1 = if char_at(t, 0) == Some('\u{FEFF}') {
        Cursor { pos: 1, line: 1, col: 1 }
    } else {
        c0
    };
    after_version_marker(t, c1)
}

/// The nodes of the KDL document `t`, or the first error in it.
pub open spec fn kdl_document(t: Seq<char>) -> Result<Seq<Node>, KdlError> {
    match nodes_from(t, document_start(t), false, Seq::empty()) {
        Err(e) => Err(e),
        Ok((ns, c3)) => match lsp(t, c3) {
            Err(e) => Err(e),
            Ok(c4) => if c4.pos < t.len() {
                Err(unexpected_at(t, c4))
            } else {
                Ok(ns)
            },
        },
    }
}

} // verus!
