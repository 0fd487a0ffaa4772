//! Reading a KDL v2 document: the readers of type annotations, values,
//! entries, nodes and lists of nodes, each doing what the grammar in
//! `grammar.rs` says from where the scanner stands.
use vstd::prelude::*;
use super::comment::{skip_line_space, skip_node_space, skip_ws};
use super::grammar::{
    adv, after_dropped_block, after_type_error, children_tail, document_start, entries_from,
    entry_at, entry_body, entry_sd, expect_at, kdl_document, key_or_arg, kw_val, kwnum_val, lsp,
    node_at, nodes_from, nsp, num_val, str_at, str_req, stuck, type_ann, unexpected_at, value_at,
    wsp,
};
use super::number::{parse_keyword_number, parse_number};
use super::scan::{error_at, is_newline, lemma_walk_two, step, steps, Cursor, Scanner};
use super::string::parse_string_if_available;
use super::syntax::{
    skip_node_terminator, skip_version_marker, try_consume_entry_slashdash, try_consume_slashdash,
    try_parse_keyword,
};
use super::value::{
    entry_view, lemma_nodes_view_push, node_view, nodes_view, opt_text, val_view, Entry, KdlDocument,
    KdlEntry, KdlError, KdlErrorKind, KdlNode, KdlValue, Node, Val,
};

verus! {

pub open spec fn opt_val(o: Option<KdlValue>) -> Option<Val> {
    match o {
        Some(v) => Some(val_view(v)),
        None => None,
    }
}

pub open spec fn opt_entry(o: Option<KdlEntry>) -> Option<Entry> {
    match o {
        Some(e) => Some(entry_view(e)),
        None => None,
    }
}

pub open spec fn opt_node(o: Option<KdlNode>) -> Option<Node> {
    match o {
        Some(n) => Some(node_view(&n)),
        None => None,
    }
}

/// A scanner that reads the text `t` and may pass any of its positions.
pub open spec fn reads(s: &Scanner, t: Seq<char>) -> bool {
    s.wf() && s.text() == t && t.len() + 16 < usize::MAX
}

proof fn lemma_adv(s: Seq<char>, c: Cursor)
    ensures
        adv(s, c) == step(s, c),
{
    assert(steps(s, c, 1) == steps(s, step(s, c), 0));
}

/// The error for an unexpected character (or end of input) at the position.
fn unexpected(s: &Scanner) -> (r: KdlError)
    requires
        s.wf(),
    ensures
        r == unexpected_at(s.text(), s.cursor()),
{
    match s.peek() {
        Some(ch) => s.make_error(KdlErrorKind::UnexpectedChar(ch)),
        None => s.make_error(KdlErrorKind::UnexpectedEof),
    }
}

/// Whitespace and comments within a line.
fn read_ws(s: &mut Scanner) -> (r: Result<(), KdlError>)
    requires
        old(s).wf(),
    ensures
        final(s).wf(),
        final(s).text() == old(s).text(),
        match wsp(old(s).text(), old(s).cursor()) {
            Ok(d) => r is Ok && final(s).cursor() == d,
            Err(e) => r == Err::<(), KdlError>(e),
        },
{
    skip_ws(s)
}

/// Whitespace, comments and newlines.
fn read_line_space(s: &mut Scanner) -> (r: Result<(), KdlError>)
    requires
        old(s).wf(),
    ensures
        final(s).wf(),
        final(s).text() == old(s).text(),
        match lsp(old(s).text(), old(s).cursor()) {
            Ok(d) => r is Ok && final(s).cursor() == d,
            Err(e) => r == Err::<(), KdlError>(e),
        },
{
    skip_line_space(s)
}

/// Node space; whether any was read.
fn read_node_space(s: &mut Scanner) -> (r: Result<bool, KdlError>)
    requires
        old(s).wf(),
    ensures
        final(s).wf(),
        final(s).text() == old(s).text(),
        match nsp(old(s).text(), old(s).cursor()) {
            Ok((d, b)) => r == Ok::<bool, KdlError>(b) && final(s).cursor() == d,
            Err(e) => r == Err::<bool, KdlError>(e),
        },
{
    skip_node_space(s)
}

/// The character `ch`, which must stand at the position.
fn read_char(s: &mut Scanner, ch: char) -> (r: Result<(), KdlError>)
    requires
        old(s).wf(),
    ensures
        final(s).wf(),
        final(s).text() == old(s).text(),
        match expect_at(old(s).text(), old(s).cursor(), ch) {
            Ok(d) => r is Ok && final(s).cursor() == d,
            Err(e) => r == Err::<(), KdlError>(e),
        },
{
    proof {
        lemma_adv(s.text(), s.cursor());
    }
    s.expect(ch)
}

/// A string value, where one stands at the position.
fn read_string_opt(s: &mut Scanner) -> (r: Result<Option<String>, KdlError>)
    requires
        reads(old(s), old(s).text()),
    ensures
        reads(final(s), old(s).text()),
        match str_at(old(s).text(), old(s).cursor()) {
            Ok((o, d)) => final(s).cursor() == d && (r matches Ok(x) && opt_text(x) == o),
            Err(e) => r == Err::<Option<String>, KdlError>(e),
        },
{
    parse_string_if_available(s)
}

/// A string, which must stand at the position.
fn parse_string(s: &mut Scanner) -> (r: Result<String, KdlError>)
    requires
        reads(old(s), old(s).text()),
    ensures
        reads(final(s), old(s).text()),
        match str_req(old(s).text(), old(s).cursor()) {
            Ok((x, d)) => final(s).cursor() == d && (r matches Ok(v) && v@ == x),
            Err(e) => r == Err::<String, KdlError>(e),
        },
{
    match read_string_opt(s) {
        Err(e) => Err(e),
        Ok(Some(v)) => Ok(v),
        Ok(None) => Err(unexpected(s)),
    }
}

/// A type annotation `(` ws* string ws* `)`, if one begins at the position.
fn try_parse_type_annotation(s: &mut Scanner) -> (r: Result<Option<String>, KdlError>)
    requires
        reads(old(s), old(s).text()),
    ensures
        reads(final(s), old(s).text()),
        match type_ann(old(s).text(), old(s).cursor()) {
            Ok((o, d)) => final(s).cursor() == d && (r matches Ok(x) && opt_text(x) == o),
            Err(e) => r == Err::<Option<String>, KdlError>(e),
        },
{
    proof {
        lemma_adv(s.text(), s.cursor());
    }
    if s.peek() != Some('(') {
        return Ok(None);
    }
    s.advance();
    read_ws(s)?;
    let ty = parse_string(s)?;
    read_ws(s)?;
    read_char(s, ')')?;
    Ok(Some(ty))
}

/// A number value, where one stands at the position.
fn read_number(s: &mut Scanner) -> (r: Result<Option<KdlValue>, KdlError>)
    requires
        old(s).wf(),
    ensures
        final(s).wf(),
        final(s).text() == old(s).text(),
        match num_val(old(s).text(), old(s).cursor()) {
            Ok((o, d)) => final(s).cursor() == d && (r matches Ok(x) && opt_val(x) == o),
            Err(e) => r == Err::<Option<KdlValue>, KdlError>(e),
        },
{
    match parse_number(s) {
        Err(e) => Err(e),
        Ok(None) => Ok(None),
        Ok(Some(n)) => Ok(Some(KdlValue::Number(n))),
    }
}

/// `#inf`, `#-inf` or `#nan`, where one stands at the position.
fn read_keyword_number(s: &mut Scanner) -> (r: Option<KdlValue>)
    requires
        old(s).wf(),
    ensures
        final(s).wf(),
        final(s).text() == old(s).text(),
        match kwnum_val(old(s).text(), old(s).cursor()) {
            Some((v, d)) => final(s).cursor() == d && (r matches Some(x) && val_view(x) == v),
            None => r is None && final(s).cursor() == old(s).cursor(),
        },
{
    match parse_keyword_number(s) {
        Ok(Some(n)) => Some(KdlValue::Number(n)),
        _ => None,
    }
}

/// `#true`, `#false` or `#null`, where one stands at the position.
fn read_keyword(s: &mut Scanner) -> (r: Option<KdlValue>)
    requires
        old(s).wf(),
    ensures
        final(s).wf(),
        final(s).text() == old(s).text(),
        match kw_val(old(s).text(), old(s).cursor()) {
            Some((v, d)) => final(s).cursor() == d && (r matches Some(x) && val_view(x) == v),
            None => r is None && final(s).cursor() == old(s).cursor(),
        },
{
    match try_parse_keyword(s) {
        Ok(Some(v)) => Some(v),
        _ => None,
    }
}

/// A value: a keyword number, a keyword, a number or a string.
fn parse_value(s: &mut Scanner) -> (r: Result<KdlValue, KdlError>)
    requires
        reads(old(s), old(s).text()),
    ensures
        reads(final(s), old(s).text()),
        match value_at(old(s).text(), old(s).cursor()) {
            Ok((v, d)) => final(s).cursor() == d && (r matches Ok(x) && val_view(x) == v),
            Err(e) => r == Err::<KdlValue, KdlError>(e),
        },
{
    if let Some(v) = read_keyword_number(s) {
        return Ok(v);
    }
    if let Some(v) = read_keyword(s) {
        return Ok(v);
    }
    match read_number(s) {
        Err(e) => {
            return Err(e);
        },
        Ok(Some(v)) => {
            return Ok(v);
        },
        Ok(None) => {},
    }
    let t = parse_string(s)?;
    Ok(KdlValue::String(t))
}

/// After a string: a property when `=` follows, else an argument.
fn key_or_argument(s: &mut Scanner, ty: Option<String>, text: String) -> (r: Result<
    Option<KdlEntry>,
    KdlError,
>)
    requires
        reads(old(s), old(s).text()),
    ensures
        reads(final(s), old(s).text()),
        match key_or_arg(old(s).text(), opt_text(ty), text@, old(s).cursor()) {
            Ok((o, d)) => final(s).cursor() == d && (r matches Ok(x) && opt_entry(x) == o),
            Err(e) => r == Err::<Option<KdlEntry>, KdlError>(e),
        },
{
    let saved = s.save();
    read_ws(s)?;
    if s.peek() == Some('=') {
        if ty.is_some() {
            return Err(s.make_error(KdlErrorKind::UnexpectedChar('=')));
        }
        proof {
            lemma_adv(s.text(), s.cursor());
        }
        s.advance();
        read_ws(s)?;
        let vt = try_parse_type_annotation(s)?;
        if vt.is_some() {
            read_node_space(s)?;
        }
        let value = parse_value(s)?;
        Ok(Some(KdlEntry::Property { key: text, ty: vt, value }))
    } else {
        s.restore(saved);
        Ok(Some(KdlEntry::Argument { ty, value: KdlValue::String(text) }))
    }
}

/// The error for what may not follow a type annotation, if any.
fn type_follow_error(s: &Scanner) -> (r: Option<KdlError>)
    requires
        s.wf(),
    ensures
        r == after_type_error(s.text(), s.cursor()),
{
    if s.peek() == Some('/') && s.peek_next() == Some('-') {
        return Some(s.make_error(KdlErrorKind::InvalidSlashdash));
    }
    match s.peek() {
        None => Some(s.make_error(KdlErrorKind::UnexpectedChar(' '))),
        Some(ch) => {
            if ch == ';' || ch == '}' || is_newline(ch) {
                Some(s.make_error(KdlErrorKind::UnexpectedChar(ch)))
            } else if ch == '/' && s.peek_next() == Some('/') {
                Some(s.make_error(KdlErrorKind::UnexpectedChar('/')))
            } else {
                None
            }
        },
    }
}

fn parse_entry_body(s: &mut Scanner, ty: Option<String>) -> (r: Result<Option<KdlEntry>, KdlError>)
    requires
        reads(old(s), old(s).text()),
    ensures
        reads(final(s), old(s).text()),
        match entry_body(old(s).text(), opt_text(ty), old(s).cursor()) {
            Ok((o, d)) => final(s).cursor() == d && (r matches Ok(x) && opt_entry(x) == o),
            Err(e) => r == Err::<Option<KdlEntry>, KdlError>(e),
        },
{
    if s.peek() == Some('#') {
        match read_string_opt(s) {
            Err(e) => Err(e),
            Ok(Some(t)) => key_or_argument(s, ty, t),
            Ok(None) => {
                if let Some(v) = read_keyword_number(s) {
                    return Ok(Some(KdlEntry::Argument { ty, value: v }));
                }
                if let Some(v) = read_keyword(s) {
                    return Ok(Some(KdlEntry::Argument { ty, value: v }));
                }
                Ok(None)
            },
        }
    } else {
        match read_number(s) {
            Err(e) => Err(e),
            Ok(Some(v)) => Ok(Some(KdlEntry::Argument { ty, value: v })),
            Ok(None) => match read_string_opt(s) {
                Err(e) => Err(e),
                Ok(Some(t)) => key_or_argument(s, ty, t),
                Ok(None) => Ok(None),
            },
        }
    }
}

/// An entry: an argument or a property, with its type annotation; `None`
/// where none begins.
fn try_parse_entry(s: &mut Scanner) -> (r: Result<Option<KdlEntry>, KdlError>)
    requires
        reads(old(s), old(s).text()),
    ensures
        reads(final(s), old(s).text()),
        match entry_at(old(s).text(), old(s).cursor()) {
            Ok((o, d)) => final(s).cursor() == d && (r matches Ok(x) && opt_entry(x) == o),
            Err(e) => r == Err::<Option<KdlEntry>, KdlError>(e),
        },
{
    let ty = try_parse_type_annotation(s)?;
    if ty.is_some() {
        read_node_space(s)?;
        if let Some(e) = type_follow_error(s) {
            return Err(e);
        }
    }
    parse_entry_body(s, ty)
}

/// A slashdash before an entry or a block of children; whether one was read.
fn read_entry_slashdash(s: &mut Scanner) -> (r: Result<bool, KdlError>)
    requires
        old(s).wf(),
    ensures
        final(s).wf(),
        final(s).text() == old(s).text(),
        match entry_sd(old(s).text(), old(s).cursor()) {
            Ok((d, b)) => r == Ok::<bool, KdlError>(b) && final(s).cursor() == d,
            Err(e) => r == Err::<bool, KdlError>(e),
        },
{
    try_consume_entry_slashdash(s)
}

/// Whether the character at the position (or the end of input) may follow
/// a block of children.
fn dropped_block_follow(s: &Scanner) -> (r: bool)
    requires
        s.wf(),
    ensures
        r == after_dropped_block(s.text(), s.cursor()),
{
    match s.peek() {
        None => true,
        Some(ch) => ch == '{' || ch == ';' || ch == '/' || ch == '}' || is_newline(ch),
    }
}

/// Slashdashed blocks of children after a node's block of children.
fn skip_dropped_blocks(s: &mut Scanner) -> (r: Result<(), KdlError>)
    requires
        reads(old(s), old(s).text()),
    ensures
        reads(final(s), old(s).text()),
        match children_tail(old(s).text(), old(s).cursor()) {
            Ok(d) => r is Ok && final(s).cursor() == d,
            Err(e) => r == Err::<(), KdlError>(e),
        },
    decreases old(s).text().len() - old(s).cursor().pos, 0nat,
{
    let ghost t = s.text();
    let ghost c0 = s.cursor();
    loop
        invariant
            reads(s, t),
            t == old(s).text(),
            c0 == old(s).cursor(),
            c0.pos <= s.cursor().pos,
            children_tail(t, c0) == children_tail(t, s.cursor()),
        decreases t.len() - s.cursor().pos,
    {
        let ghost c = s.cursor();
        let start = s.offset();
        read_node_space(s)?;
        if !(s.peek() == Some('/') && s.peek_next() == Some('-')) {
            return Ok(());
        }
        let saved = s.save();
        proof {
            lemma_walk_two(t, s.cursor());
        }
        s.advance();
        s.advance();
        read_line_space(s)?;
        if s.peek() != Some('{') {
            s.restore(saved);
            return Ok(());
        }
        proof {
            lemma_adv(t, s.cursor());
        }
        s.advance();
        if !(start < s.offset()) {
            return Err(s.make_error(KdlErrorKind::UnexpectedEof));
        }
        let _dropped = parse_nodes(s, true)?;
        read_char(s, '}')?;
        if !(start < s.offset()) {
            return Err(s.make_error(KdlErrorKind::UnexpectedEof));
        }
    }
}

/// The entries and the block of children of a node whose type annotation
/// and name have been read.
#[verifier::rlimit(60)]
fn parse_entries(s: &mut Scanner, ty: Option<String>, name: String) -> (r: Result<KdlNode, KdlError>)
    requires
        reads(old(s), old(s).text()),
    ensures
        reads(final(s), old(s).text()),
        match entries_from(old(s).text(), old(s).cursor(), opt_text(ty), name@, Seq::empty()) {
            Ok((n, d)) => final(s).cursor() == d && (r matches Ok(x) && node_view(&x) == n),
            Err(e) => r == Err::<KdlNode, KdlError>(e),
        },
    decreases old(s).text().len() - old(s).cursor().pos, 0nat,
{
    let ghost t = s.text();
    let ghost c0 = s.cursor();
    let ghost tyv = opt_text(ty);
    let ghost namev = name@;
    let mut entries: Vec<KdlEntry> = Vec::new();
    proof {
        assert(super::value::entries_view(entries@) =~= Seq::<Entry>::empty());
    }
    loop
        invariant
            reads(s, t),
            t == old(s).text(),
            c0 == old(s).cursor(),
            c0.pos <= s.cursor().pos,
            tyv == opt_text(ty),
            namev == name@,
            entries_from(t, c0, tyv, namev, Seq::empty()) == entries_from(
                t,
                s.cursor(),
                tyv,
                namev,
                super::value::entries_view(entries@),
            ),
        decreases t.len() - s.cursor().pos,
    {
        let start = s.offset();
        let had = read_node_space(s)?;
        if !had && !(s.peek() == Some('{') || (s.peek() == Some('/') && s.peek_next() == Some('-'))) {
            return Ok(KdlNode { ty, name, entries, children: None });
        }
        let sd = read_entry_slashdash(s)?;
        if s.peek() == Some('{') {
            proof {
                lemma_adv(t, s.cursor());
            }
            s.advance();
            if !(start < s.offset()) {
                return Err(s.make_error(KdlErrorKind::UnexpectedEof));
            }
            let kids = parse_nodes(s, true)?;
            read_char(s, '}')?;
            if !(start < s.offset()) {
                return Err(s.make_error(KdlErrorKind::UnexpectedEof));
            }
            if sd {
                read_node_space(s)?;
                if !dropped_block_follow(s) {
                    return Err(s.make_error(KdlErrorKind::InvalidSlashdash));
                }
                if !(start < s.offset()) {
                    return Err(s.make_error(KdlErrorKind::UnexpectedEof));
                }
            } else {
                skip_dropped_blocks(s)?;
                return Ok(KdlNode { ty, name, entries, children: Some(kids) });
            }
        } else {
            match try_parse_entry(s)? {
                None => {
                    return Ok(KdlNode { ty, name, entries, children: None });
                },
                Some(e) => {
                    if !(start < s.offset()) {
                        return Err(s.make_error(KdlErrorKind::UnexpectedEof));
                    }
                    if !sd {
                        let ghost before = entries@;
                        entries.push(e);
                        proof {
                            assert(super::value::entries_view(entries@) =~= super::value::entries_view(
                                before,
                            ).push(entry_view(e)));
                        }
                    }
                },
            }
        }
    }
}

/// A node: its type annotation, name, entries and children; `None` where
/// no name begins.
fn parse_base_node(s: &mut Scanner) -> (r: Result<Option<KdlNode>, KdlError>)
    requires
        reads(old(s), old(s).text()),
    ensures
        reads(final(s), old(s).text()),
        match node_at(old(s).text(), old(s).cursor()) {
            Ok((o, d)) => final(s).cursor() == d && (r matches Ok(x) && opt_node(x) == o),
            Err(e) => r == Err::<Option<KdlNode>, KdlError>(e),
        },
    decreases old(s).text().len() - old(s).cursor().pos, 1nat,
{
    let start = s.offset();
    let ty = try_parse_type_annotation(s)?;
    if ty.is_some() {
        read_node_space(s)?;
    }
    match read_string_opt(s)? {
        None => {
            if ty.is_some() {
                Err(s.make_error(KdlErrorKind::UnexpectedEof))
            } else {
                Ok(None)
            }
        },
        Some(name) => {
            if !(start <= s.offset()) {
                return Err(s.make_error(KdlErrorKind::UnexpectedEof));
            }
            let n = parse_entries(s, ty, name)?;
            Ok(Some(n))
        },
    }
}

/// Nodes, up to the end of the text or, inside a block of children, up to
/// its closing `}`; slashdashed nodes are left out.
fn parse_nodes(s: &mut Scanner, in_children: bool) -> (r: Result<Vec<KdlNode>, KdlError>)
    requires
        reads(old(s), old(s).text()),
    ensures
        reads(final(s), old(s).text()),
        match nodes_from(old(s).text(), old(s).cursor(), in_children, Seq::empty()) {
            Ok((ns, d)) => final(s).cursor() == d && (r matches Ok(v) && nodes_view(v@) == ns),
            Err(e) => r == Err::<Vec<KdlNode>, KdlError>(e),
        },
    decreases old(s).text().len() - old(s).cursor().pos, 2nat,
{
    let ghost t = s.text();
    let ghost c0 = s.cursor();
    let mut nodes: Vec<KdlNode> = Vec::new();
    proof {
        assert(nodes_view(nodes@) =~= Seq::<Node>::empty());
    }
    loop
        invariant
            reads(s, t),
            t == old(s).text(),
            c0 == old(s).cursor(),
            c0.pos <= s.cursor().pos,
            nodes_from(t, c0, in_children, Seq::empty()) == nodes_from(
                t,
                s.cursor(),
                in_children,
                nodes_view(nodes@),
            ),
        decreases t.len() - s.cursor().pos,
    {
        let start = s.offset();
        read_line_space(s)?;
        if (in_children && s.peek() == Some('}')) || s.is_eof() {
            return Ok(nodes);
        }
        let sd = try_consume_slashdash(s)?;
        read_line_space(s)?;
        if (in_children && s.peek() == Some('}')) || s.is_eof() {
            if sd {
                return Err(s.make_error(KdlErrorKind::InvalidSlashdash));
            }
            return Ok(nodes);
        }
        if !(start <= s.offset()) {
            return Err(s.make_error(KdlErrorKind::UnexpectedEof));
        }
        match parse_base_node(s)? {
            None => {
                return Err(unexpected(s));
            },
            Some(n) => {
                if !in_children || s.peek() != Some('}') {
                    skip_node_terminator(s, in_children)?;
                }
                if !(start < s.offset()) {
                    return Err(s.make_error(KdlErrorKind::UnexpectedEof));
                }
                if !sd {
                    let ghost before = nodes@;
                    nodes.push(n);
                    proof {
                        lemma_nodes_view_push(before, n);
                    }
                }
            },
        }
    }
}

/// Reads a KDL v2 document: a byte order mark and a version marker may
/// stand first; the error is the first one met, with its line and column.
pub fn parse(input: &str) -> (r: Result<KdlDocument, KdlError>)
    requires
        input@.len() + 16 < usize::MAX,
    ensures
        match kdl_document(input@) {
            Ok(ns) => r matches Ok(d) && nodes_view(d.nodes@) == ns,
            Err(e) => r == Err::<KdlDocument, KdlError>(e),
        },
{
    let mut s = Scanner::new(input);
    s.skip_bom();
    skip_version_marker(&mut s)?;
    let nodes = parse_nodes(&mut s, false)?;
    read_line_space(&mut s)?;
    if !s.is_eof() {
        return Err(unexpected(&s));
    }
    Ok(KdlDocument { nodes })
}

} // verus!
