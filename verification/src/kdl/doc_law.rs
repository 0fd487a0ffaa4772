//! Reading back what the writer writes: the plain text of a document read
//! as a KDL document gives its nodes back.
use vstd::prelude::*;
use super::comment::{escline, esclines, line_space, line_space_piece, node_space, ws, ws_end};
use super::grammar::{
    adv, children_tail, document_start, entries_from, entry_at, entry_body, entry_sd, expect_at,
    kdl_document, key_or_arg, kw_val, kwnum_val, lsp, node_at, nodes_from, nsp, num_val, str_at,
    type_ann, value_at, wsp,
};
use super::normalize::{indent_text, ty_text};
use super::number::{
    int_end, is_exp_at, keyword_number_end, number_i64, prefix_letter_radix, radix_end, scan_decimal,
    scan_number, scan_prefixed, NumberScan,
};
use super::number_form::radix_digit;
use super::quote::{ascii_digit, bare_ok, escape_char, escape_text, ident_text, quoted};
use super::scan::{
    char_at, cursor_ok, identifier_char, lemma_step_ok, lemma_walk, lemma_walk_trans,
    lemma_walk_zero, newline, newline_step, step, steps, unicode_space, walk, Cursor,
};
use super::serialize::{plain_entries_text, plain_entry_text, plain_node_text, plain_nodes_text};
use super::string::{hash_end, ident_end, ident_start, string_scan, StrScan};
use super::string_law::{lemma_close, lemma_decode, lemma_escape_text_front, lemma_unit_shape};
use super::syntax::{keyword_at, node_terminator, slashdash, word_at};
use super::value::{
    entries_view, entry_view, lemma_nodes_view, node_view, nodes_view, Entry, KdlDocument, KdlEntry,
    KdlError, KdlNode, KdlValue, Node, Val,
};

verus! {

// ---- the text that the writer gives, over the model of a document ----

/// The text of a type annotation, or nothing.
pub open spec fn ty_txt(ty: Option<Seq<char>>) -> Seq<char> {
    match ty {
        Some(t) => seq!['('] + ident_text(t) + seq![')'],
        None => Seq::empty(),
    }
}

/// The text of a value: a string quoted, a number as written.
pub open spec fn val_txt(v: Val) -> Seq<char> {
    match v {
        Val::Str(t) => quoted(t),
        Val::Num(raw, _) => raw,
        Val::Bool(b) => if b {
            seq!['#', 't', 'r', 'u', 'e']
        } else {
            seq!['#', 'f', 'a', 'l', 's', 'e']
        },
        Val::Null => seq!['#', 'n', 'u', 'l', 'l'],
    }
}

/// The text of an entry.
pub open spec fn entry_txt(e: Entry) -> Seq<char> {
    match e {
        Entry::Arg { ty, value } => ty_txt(ty) + val_txt(value),
        Entry::Prop { key, ty, value } => ident_text(key) + seq!['='] + ty_txt(ty) + val_txt(value),
    }
}

/// Entries in order, each after a space.
pub open spec fn entries_txt(es: Seq<Entry>) -> Seq<char>
    decreases es.len(),
{
    if es.len() == 0 {
        Seq::empty()
    } else {
        seq![' '] + entry_txt(es[0]) + entries_txt(es.drop_first())
    }
}

/// A node's type annotation, name and entries.
pub open spec fn node_head(n: Node) -> Seq<char> {
    ty_txt(n.ty) + ident_text(n.name) + entries_txt(n.entries)
}

/// A node's block of children, where it has children, up to its `}`.
pub open spec fn node_tail(n: Node, depth: nat) -> Seq<char>
    decreases n, 0nat,
{
    match n.children {
        Some(c) => if c.len() > 0 {
            seq![' ', '{', '\n'] + nodes_txt(c, depth + 1) + indent_text(depth) + seq!['}']
        } else {
            Seq::empty()
        },
        None => Seq::empty(),
    }
}

/// The text of a node at nesting `depth`, with the line break that ends it.
pub open spec fn node_txt(n: Node, depth: nat) -> Seq<char>
    decreases n, 1nat,
{
    indent_text(depth) + node_head(n) + node_tail(n, depth) + seq!['\n']
}

/// The texts of nodes, one after the other.
pub open spec fn nodes_txt(ns: Seq<Node>, depth: nat) -> Seq<char>
    decreases ns, 0nat,
{
    if ns.len() == 0 {
        Seq::empty()
    } else {
        node_txt(ns[0], depth) + nodes_txt(ns.drop_first(), depth)
    }
}

// ---- cursors and space ----

proof fn lemma_step(s: Seq<char>, c: Cursor)
    requires
        cursor_ok(s, c),
        c.pos < s.len(),
    ensures
        step(s, c) == walk(s, c, c.pos + 1),
        cursor_ok(s, step(s, c)),
        step(s, c).pos == c.pos + 1,
{
    lemma_step_ok(s, c);
    assert(steps(s, c, 1) == steps(s, step(s, c), 0));
}

/// A character that ends a run of blank space, and starts no comment, no
/// escaped line break and no slashdash.
pub open spec fn hard(ch: char) -> bool {
    !unicode_space(ch) && !newline(ch) && ch != '/' && ch != '\\'
}

pub open spec fn hard_at(s: Seq<char>, p: int) -> bool {
    match char_at(s, p) {
        None => true,
        Some(ch) => hard(ch),
    }
}

/// Spaces and line feeds up to `q`, and there a hard character or the end:
/// line space passes them all.
proof fn lemma_lsp(s: Seq<char>, c: Cursor, q: int)
    requires
        cursor_ok(s, c),
        c.pos <= q <= s.len(),
        forall|i: int| c.pos <= i < q ==> (s[i] == ' ' || s[i] == '\n'),
        hard_at(s, q),
    ensures
        line_space(s, c) == Ok::<Cursor, Cursor>(walk(s, c, q)),
        lsp(s, c) == Ok::<Cursor, super::value::KdlError>(walk(s, c, q)),
        cursor_ok(s, walk(s, c, q)),
        walk(s, c, q).pos == q,
    decreases q - c.pos,
{
    lemma_walk(s, c, q);
    if c.pos < q {
        lemma_step(s, c);
        let d = step(s, c);
        assert(newline_step(s, c) == d);
        assert(line_space_piece(s, c) == Ok::<Option<Cursor>, Cursor>(Some(d)));
        lemma_lsp(s, d, q);
        lemma_walk_trans(s, c, c.pos + 1, q);
    } else {
        lemma_walk_zero(s, c);
    }
}

/// Node space at a character that is no space, no `/` and no `\`.
proof fn lemma_nsp_none(s: Seq<char>, c: Cursor)
    requires
        cursor_ok(s, c),
        match char_at(s, c.pos) {
            None => true,
            Some(ch) => !unicode_space(ch) && ch != '/' && ch != '\\',
        },
    ensures
        ws(s, c) == Ok::<Cursor, Cursor>(c),
        wsp(s, c) == Ok::<Cursor, super::value::KdlError>(c),
        node_space(s, c) == Ok::<(Cursor, bool), Cursor>((c, false)),
        nsp(s, c) == Ok::<(Cursor, bool), super::value::KdlError>((c, false)),
{
    assert(ws_end(s, c.pos) == Some(c.pos));
    lemma_walk_zero(s, c);
    assert(escline(s, c) == Ok::<Option<Cursor>, Cursor>(None));
    assert(esclines(s, c) == Ok::<(Cursor, bool), Cursor>((c, false)));
}

/// Node space at one space followed by a character that is no space, no
/// `/` and no `\`.
proof fn lemma_nsp_one(s: Seq<char>, c: Cursor)
    requires
        cursor_ok(s, c),
        char_at(s, c.pos) == Some(' '),
        match char_at(s, c.pos + 1) {
            None => true,
            Some(ch) => !unicode_space(ch) && ch != '/' && ch != '\\',
        },
    ensures
        ws(s, c) == Ok::<Cursor, Cursor>(step(s, c)),
        wsp(s, c) == Ok::<Cursor, super::value::KdlError>(step(s, c)),
        nsp(s, c) == Ok::<(Cursor, bool), super::value::KdlError>((step(s, c), true)),
        step(s, c).pos == c.pos + 1,
        cursor_ok(s, step(s, c)),
{
    lemma_step(s, c);
    let d = step(s, c);
    assert(ws_end(s, c.pos + 1) == Some(c.pos + 1));
    assert(ws_end(s, c.pos) == Some(c.pos + 1));
    lemma_nsp_none(s, d);
}

// ---- names and strings ----

proof fn lemma_ident_end_at(s: Seq<char>, k: int, e: int)
    requires
        0 <= k <= e <= s.len(),
        forall|i: int| k <= i < e ==> identifier_char(#[trigger] s[i]),
        e < s.len() ==> !identifier_char(s[e]),
    ensures
        ident_end(s, k) == e,
    decreases e - k,
{
    if k < e {
        lemma_ident_end_at(s, k + 1, e);
    }
}

/// A quoted string written at `p`, and no quote after it, reads as its text.
proof fn lemma_quoted_at(s: Seq<char>, p: int, t: Seq<char>)
    requires
        0 <= p,
        p + quoted(t).len() <= s.len(),
        s.subrange(p, p + quoted(t).len()) == quoted(t),
        char_at(s, p + quoted(t).len()) != Some('"'),
    ensures
        string_scan(s, p) == (StrScan::Str { text: t, end: p + quoted(t).len() }),
{
    let e = escape_text(t);
    let q = quoted(t);
    let l = q.len() as int;
    assert(l == e.len() + 2);
    assert(s[p] == q[0]);
    assert(s[p + 1] == q[1]);
    if t.len() > 0 {
        lemma_escape_text_front(t);
        lemma_unit_shape(t[0]);
        assert(q[1] == e[0]);
        assert(e[0] == escape_char(t[0])[0]);
    } else {
        assert(e.len() == 0);
        assert(q[1] == '"');
    }
    assert(s.subrange(p + 1, p + 1 + e.len() + 1) =~= e + seq!['"']) by {
        assert forall|k: int| 0 <= k < e.len() + 1 implies s.subrange(p + 1, p + 1 + e.len() + 1)[k]
            == (e + seq!['"'])[k] by {
            assert(s[p + 1 + k] == q[1 + k]);
        }
    }
    lemma_close(s, p + 1, t);
    let b = s.subrange(p + 1, p + 1 + e.len());
    assert(b =~= e) by {
        assert forall|k: int| 0 <= k < e.len() implies b[k] == e[k] by {
            assert(s[p + 1 + k] == q[1 + k]);
        }
    }
    assert(b.subrange(0, b.len() as int) =~= b);
    lemma_decode(b, 0, t, Seq::empty());
    assert(Seq::<char>::empty() + t =~= t);
}

/// A bare identifier written at `p`, followed by no identifier character,
/// reads as itself.
proof fn lemma_bare_at(s: Seq<char>, p: int, t: Seq<char>)
    requires
        bare_ok(t),
        0 <= p,
        p + t.len() <= s.len(),
        s.subrange(p, p + t.len()) == t,
        match char_at(s, p + t.len()) {
            None => true,
            Some(x) => !identifier_char(x),
        },
    ensures
        string_scan(s, p) == (StrScan::Str { text: t, end: p + t.len() }),
{
    let n = t.len() as int;
    assert forall|i: int| p <= i < p + n implies identifier_char(#[trigger] s[i]) by {
        assert(s[i] == t[i - p]);
    }
    assert(s[p] == t[0]);
    if n > 1 {
        assert(s[p + 1] == t[1]);
    }
    if n > 2 {
        assert(s[p + 2] == t[2]);
    }
    assert(identifier_char('0') && identifier_char('.'));
    assert(ident_start(s, p));
    lemma_ident_end_at(s, p, p + n);
}

/// A name written as the writer writes it, followed by a space, a line
/// feed, `=` or `)`, reads as itself.
proof fn lemma_ident_at(s: Seq<char>, p: int, t: Seq<char>)
    requires
        0 <= p,
        p + ident_text(t).len() <= s.len(),
        s.subrange(p, p + ident_text(t).len()) == ident_text(t),
        match char_at(s, p + ident_text(t).len()) {
            None => true,
            Some(x) => x == ' ' || x == '\n' || x == '=' || x == ')',
        },
    ensures
        string_scan(s, p) == (StrScan::Str { text: t, end: p + ident_text(t).len() }),
{
    if bare_ok(t) {
        lemma_bare_at(s, p, t);
    } else {
        lemma_quoted_at(s, p, t);
    }
}

// ---- numbers ----

proof fn lemma_win_char(s1: Seq<char>, a1: int, s2: Seq<char>, a2: int, n: int, k: int)
    requires
        0 <= a1,
        0 <= a2,
        0 <= k < n,
        a1 + n <= s1.len(),
        a2 + n <= s2.len(),
        s1.subrange(a1, a1 + n) == s2.subrange(a2, a2 + n),
    ensures
        s1[a1 + k] == s2[a2 + k],
{
    assert(s1.subrange(a1, a1 + n)[k] == s2.subrange(a2, a2 + n)[k]);
    assert(s1.subrange(a1, a1 + n)[k] == s1[a1 + k]);
    assert(s2.subrange(a2, a2 + n)[k] == s2[a2 + k]);
}

/// A number ends after where it starts.
proof fn lemma_scan_pos(s: Seq<char>, p: int)
    requires
        scan_number(s, p) is Number,
    ensures
        scan_number(s, p)->end > p,
{
    let ch = s[p];
    let q = if ch == '+' || ch == '-' { p + 1 } else { p };
    let r = prefix_letter_radix(char_at(s, q + 1));
    if s[q] == '0' && r != 0 {
        lemma_radix_end_ge(s, q + 3, r);
    } else {
        let i1 = int_end(s, q);
        lemma_int_end_ge(s, q + 1);
        assert(i1 > q);
        lemma_int_end_ge(s, i1 + 1);
        let has_dot = char_at(s, i1) == Some('.');
        let i2 = if has_dot { int_end(s, i1 + 1) } else { i1 };
        let j = if char_at(s, i2 + 1) == Some('+') || char_at(s, i2 + 1) == Some('-') {
            i2 + 2
        } else {
            i2 + 1
        };
        lemma_int_end_ge(s, j);
    }
}

proof fn lemma_int_end_ge(s: Seq<char>, p: int)
    ensures
        int_end(s, p) >= p,
    decreases s.len() - p,
{
    if 0 <= p < s.len() && (ascii_digit(s[p]) || s[p] == '_') {
        lemma_int_end_ge(s, p + 1);
    }
}

proof fn lemma_radix_end_ge(s: Seq<char>, p: int, radix: nat)
    ensures
        radix_end(s, p, radix) >= p,
    decreases s.len() - p,
{
    if 0 <= p < s.len() && (radix_digit(s[p], radix) || s[p] == '_') {
        lemma_radix_end_ge(s, p + 1, radix);
    }
}

/// Two texts that hold the same characters in a window: the digits run the
/// same way in both, up to a character that is no digit at its end.
proof fn lemma_int_end_win(s1: Seq<char>, a1: int, s2: Seq<char>, a2: int, n: int, i: int)
    requires
        0 <= a1,
        0 <= a2,
        0 <= i <= n,
        a1 + n <= s1.len(),
        a2 + n <= s2.len(),
        s1.subrange(a1, a1 + n) == s2.subrange(a2, a2 + n),
        !(char_at(s1, a1 + n) matches Some(x) && (ascii_digit(x) || x == '_')),
        !(char_at(s2, a2 + n) matches Some(x) && (ascii_digit(x) || x == '_')),
    ensures
        int_end(s1, a1 + i) - a1 == int_end(s2, a2 + i) - a2,
        a1 + i <= int_end(s1, a1 + i) <= a1 + n,
    decreases n - i,
{
    if i < n {
        lemma_win_char(s1, a1, s2, a2, n, i);
        lemma_int_end_win(s1, a1, s2, a2, n, i + 1);
    }
}

proof fn lemma_radix_end_win(
    s1: Seq<char>,
    a1: int,
    s2: Seq<char>,
    a2: int,
    n: int,
    i: int,
    radix: nat,
)
    requires
        0 <= a1,
        0 <= a2,
        0 <= i <= n,
        a1 + n <= s1.len(),
        a2 + n <= s2.len(),
        s1.subrange(a1, a1 + n) == s2.subrange(a2, a2 + n),
        !(char_at(s1, a1 + n) matches Some(x) && (radix_digit(x, radix) || x == '_')),
        !(char_at(s2, a2 + n) matches Some(x) && (radix_digit(x, radix) || x == '_')),
    ensures
        radix_end(s1, a1 + i, radix) - a1 == radix_end(s2, a2 + i, radix) - a2,
        a1 + i <= radix_end(s1, a1 + i, radix) <= a1 + n,
    decreases n - i,
{
    if i < n {
        lemma_win_char(s1, a1, s2, a2, n, i);
        lemma_radix_end_win(s1, a1, s2, a2, n, i + 1, radix);
    }
}

/// What may stand after a number: no identifier character, or, in the
/// text the number was read from, a dot.
pub open spec fn num_stop(s: Seq<char>, p: int, dot: bool) -> bool {
    match char_at(s, p) {
        None => true,
        Some(x) => !identifier_char(x) || (dot && x == '.'),
    }
}

proof fn lemma_stop_chars()
    ensures
        forall|x: char| ascii_digit(x) ==> identifier_char(x),
        forall|x: char, r: nat| radix_digit(x, r) ==> identifier_char(x),
        identifier_char('_') && identifier_char('e') && identifier_char('E') && identifier_char('x')
            && identifier_char('o') && identifier_char('b') && identifier_char('.'),
{
}

/// A decimal number read in one text reads the same in another that holds
/// the same characters up to its end, where no identifier character
/// follows.
proof fn lemma_decimal_win(s1: Seq<char>, a1: int, s2: Seq<char>, a2: int, n: int, d: int)
    requires
        0 <= a1,
        0 <= a2,
        0 <= d < n,
        a1 + n <= s1.len(),
        a2 + n <= s2.len(),
        s1.subrange(a1, a1 + n) == s2.subrange(a2, a2 + n),
        scan_decimal(s1, a1 + d) matches NumberScan::Number { end, .. } && end == a1 + n,
        num_stop(s1, a1 + n, true),
        num_stop(s2, a2 + n, false),
    ensures
        scan_decimal(s2, a2 + d) == (match scan_decimal(s1, a1 + d) {
            NumberScan::Number { end, radix, float } => NumberScan::Number {
                end: a2 + n,
                radix,
                float,
            },
            other => other,
        }),
{
    lemma_stop_chars();
    let q1 = a1 + d;
    let q2 = a2 + d;
    lemma_int_end_win(s1, a1, s2, a2, n, d);
    let i1 = int_end(s1, q1);
    let o1 = i1 - a1;
    assert(int_end(s2, q2) == a2 + o1);
    if o1 < n {
        lemma_win_char(s1, a1, s2, a2, n, o1);
    }
    let has_dot = char_at(s1, i1) == Some('.');
    if has_dot {
        lemma_int_end_ge(s1, i1 + 1);
        if o1 + 1 < n {
            lemma_win_char(s1, a1, s2, a2, n, o1 + 1);
        }
    }
    if has_dot && o1 + 1 <= n {
        lemma_int_end_win(s1, a1, s2, a2, n, o1 + 1);
    }
    let i2 = if has_dot { int_end(s1, i1 + 1) } else { i1 };
    let o2 = i2 - a1;
    if 0 <= o2 < n {
        lemma_win_char(s1, a1, s2, a2, n, o2);
    }
    if 0 <= o2 + 1 < n {
        lemma_win_char(s1, a1, s2, a2, n, o2 + 1);
    }
    let j1 = if char_at(s1, i2 + 1) == Some('+') || char_at(s1, i2 + 1) == Some('-') {
        i2 + 2
    } else {
        i2 + 1
    };
    let oj = j1 - a1;
    if 0 <= oj < n {
        lemma_win_char(s1, a1, s2, a2, n, oj);
    }
    if is_exp_at(s1, i2) {
        lemma_int_end_ge(s1, j1);
        if 0 <= oj <= n {
            lemma_int_end_win(s1, a1, s2, a2, n, oj);
        }
    }
}

/// A number read in one text reads the same in another that holds the
/// same characters up to its end, where no identifier character follows.
proof fn lemma_scan_win(s1: Seq<char>, a1: int, s2: Seq<char>, a2: int, n: int)
    requires
        0 <= a1,
        0 <= a2,
        a1 + n <= s1.len(),
        a2 + n <= s2.len(),
        s1.subrange(a1, a1 + n) == s2.subrange(a2, a2 + n),
        scan_number(s1, a1) matches NumberScan::Number { end, .. } && end == a1 + n,
        num_stop(s1, a1 + n, true),
        num_stop(s2, a2 + n, false),
    ensures
        scan_number(s2, a2) == (match scan_number(s1, a1) {
            NumberScan::Number { end, radix, float } => NumberScan::Number {
                end: a2 + n,
                radix,
                float,
            },
            other => other,
        }),
{
    lemma_stop_chars();
    lemma_scan_pos(s1, a1);
    assert(n > 0);
    lemma_win_char(s1, a1, s2, a2, n, 0);
    assert(s1[a1] == s2[a2]);
    let ch = s1[a1];
    let d: int = if ch == '+' || ch == '-' { 1 } else { 0 };
    assert(d < n);
    lemma_win_char(s1, a1, s2, a2, n, d);
    if d + 1 < n {
        lemma_win_char(s1, a1, s2, a2, n, d + 1);
    }
    let q1 = a1 + d;
    let r1 = prefix_letter_radix(char_at(s1, q1 + 1));
    assert(r1 == prefix_letter_radix(char_at(s2, a2 + d + 1)));
    if s1[q1] == '0' && r1 != 0 {
        lemma_radix_end_ge(s1, q1 + 3, r1);
        assert(d + 2 < n);
        lemma_win_char(s1, a1, s2, a2, n, d + 2);
        lemma_radix_end_win(s1, a1, s2, a2, n, d + 3, r1);
    } else {
        lemma_decimal_win(s1, a1, s2, a2, n, d);
    }
}

// ---- values and entries ----

/// A number as the model holds it: a keyword number, or a number that
/// reads to its end, with the value that reading gives.
pub open spec fn num_tok(raw: Seq<char>, v: Option<i64>) -> bool {
    ||| keyword_number_end(raw, 0) == Some(raw.len() as int) && v is None
    ||| scan_number(raw, 0) matches NumberScan::Number { end, radix, float } && end == raw.len()
        && v == number_i64(raw, radix, float)
}

pub open spec fn val_ok(v: Val) -> bool {
    match v {
        Val::Num(raw, i) => num_tok(raw, i),
        _ => true,
    }
}

pub open spec fn entry_ok(e: Entry) -> bool {
    match e {
        Entry::Arg { value, .. } => val_ok(value),
        Entry::Prop { value, .. } => val_ok(value),
    }
}

/// `w` stands in `s` at `p`.
pub open spec fn at(s: Seq<char>, p: int, w: Seq<char>) -> bool {
    0 <= p && p + w.len() <= s.len() && s.subrange(p, p + w.len()) == w
}

/// What follows an entry: a line feed, or a space and then a character
/// that begins no space, comment or `=`.
pub open spec fn entry_follow(s: Seq<char>, p: int) -> bool {
    ||| char_at(s, p) == Some('\n')
    ||| char_at(s, p) == Some(' ') && hard_at(s, p + 1) && char_at(s, p + 1) != Some('=')
}

proof fn lemma_at_char(s: Seq<char>, p: int, w: Seq<char>, k: int)
    requires
        at(s, p, w),
        0 <= k < w.len(),
    ensures
        s[p + k] == w[k],
        char_at(s, p + k) == Some(w[k]),
{
    assert(s.subrange(p, p + w.len())[k] == s[p + k]);
}

proof fn lemma_at_split(s: Seq<char>, p: int, a: Seq<char>, b: Seq<char>)
    requires
        at(s, p, a + b),
    ensures
        at(s, p, a),
        at(s, p + a.len(), b),
{
    assert(s.subrange(p, p + a.len()) =~= (a + b).subrange(0, a.len() as int));
    assert((a + b).subrange(0, a.len() as int) =~= a);
    assert(s.subrange(p + a.len(), p + a.len() + b.len()) =~= (a + b).subrange(
        a.len() as int,
        (a + b).len() as int,
    ));
    assert((a + b).subrange(a.len() as int, (a + b).len() as int) =~= b);
}

proof fn lemma_str_val_at(s: Seq<char>, c: Cursor, v: Val, ty: Option<Seq<char>>)
    requires
        cursor_ok(s, c),
        val_ok(v),
        at(s, c.pos, val_txt(v)),
        entry_follow(s, c.pos + val_txt(v).len()),
        v is Str,
    ensures
        value_at(s, c) == Ok::<(Val, Cursor), KdlError>((v, walk(s, c, c.pos + val_txt(v).len()))),
        entry_body(s, ty, c) == Ok::<(Option<Entry>, Cursor), KdlError>(
            (Some(Entry::Arg { ty, value: v }), walk(s, c, c.pos + val_txt(v).len())),
        ),
{
    let p = c.pos;
    let w = val_txt(v);
    let l = w.len() as int;
    lemma_walk(s, c, p + l);
    let d = walk(s, c, p + l);
    let t = v->Str_0;
    lemma_at_char(s, p, w, 0);
    lemma_quoted_at(s, p, t);
    assert(scan_number(s, p) == NumberScan::NotNumber);
    if char_at(s, p + l) == Some('\n') {
        lemma_nsp_none(s, d);
    } else {
        lemma_nsp_one(s, d);
    }
}

proof fn lemma_num_val_at(s: Seq<char>, c: Cursor, v: Val, ty: Option<Seq<char>>)
    requires
        cursor_ok(s, c),
        val_ok(v),
        at(s, c.pos, val_txt(v)),
        entry_follow(s, c.pos + val_txt(v).len()),
        v is Num,
    ensures
        value_at(s, c) == Ok::<(Val, Cursor), KdlError>((v, walk(s, c, c.pos + val_txt(v).len()))),
        entry_body(s, ty, c) == Ok::<(Option<Entry>, Cursor), KdlError>(
            (Some(Entry::Arg { ty, value: v }), walk(s, c, c.pos + val_txt(v).len())),
        ),
{
    let p = c.pos;
    let w = val_txt(v);
    let l = w.len() as int;
    lemma_walk(s, c, p + l);
    let raw = v->Num_0;
    assert(identifier_char('0'));
    lemma_at_char(s, p, w, 0);
    assert(s.subrange(p, p + l) == raw);
    if keyword_number_end(raw, 0) == Some(raw.len() as int) {
        lemma_at_char(s, p, w, 1);
        lemma_at_char(s, p, w, 2);
        lemma_at_char(s, p, w, 3);
        if l > 4 {
            lemma_at_char(s, p, w, 4);
        }
        assert(keyword_number_end(s, p) == Some(p + l));
        assert(hash_end(s, p + 1) == p + 1);
        assert(hash_end(s, p) == p + 1);
        assert(string_scan(s, p) == StrScan::NotString);
    } else {
        assert(raw.subrange(0, l) =~= raw);
        lemma_scan_win(raw, 0, s, p, l);
        assert(scan_number(s, p) matches NumberScan::Number { end, .. } && end == p + l);
    }
}

#[verifier::rlimit(40)]
proof fn lemma_kw_facts(s: Seq<char>, c: Cursor, v: Val, ty: Option<Seq<char>>)
    requires
        cursor_ok(s, c),
        val_ok(v),
        at(s, c.pos, val_txt(v)),
        entry_follow(s, c.pos + val_txt(v).len()),
        v is Bool || v is Null,
    ensures
        str_at(s, c) == Ok::<(Option<Seq<char>>, Cursor), KdlError>((None, c)),
        kwnum_val(s, c) is None,
        kw_val(s, c) == Some((v, walk(s, c, c.pos + val_txt(v).len()))),
        char_at(s, c.pos) == Some('#'),
{
    let p = c.pos;
    let w = val_txt(v);
    let l = w.len() as int;
    lemma_walk(s, c, p + l);
    lemma_at_char(s, p, w, 0);
    lemma_at_char(s, p, w, 1);
    lemma_at_char(s, p, w, 2);
    assert(hash_end(s, p + 1) == p + 1);
    assert(hash_end(s, p) == p + 1);
    assert(string_scan(s, p) == StrScan::NotString);
    assert(keyword_number_end(s, p) == None::<int>);
    let word = w.subrange(1, l);
    assert(s.subrange(p + 1, p + l) =~= word) by {
        assert forall|k: int| 0 <= k < l - 1 implies s.subrange(p + 1, p + l)[k] == word[k] by {
            lemma_at_char(s, p, w, k + 1);
        }
    }
    match v {
        Val::Bool(b) => {
            if b {
                assert(word =~= seq!['t', 'r', 'u', 'e']);
                assert(keyword_at(s, p) == Some((KdlValue::Bool(true), 5int)));
            } else {
                assert(word =~= seq!['f', 'a', 'l', 's', 'e']);
                assert(!word_at(s, p + 1, seq!['t', 'r', 'u', 'e']));
                assert(keyword_at(s, p) == Some((KdlValue::Bool(false), 6int)));
            }
        },
        _ => {
            assert(word =~= seq!['n', 'u', 'l', 'l']);
            assert(!word_at(s, p + 1, seq!['t', 'r', 'u', 'e']));
            assert(!word_at(s, p + 1, seq!['f', 'a', 'l', 's', 'e']));
            assert(keyword_at(s, p) == Some((KdlValue::Null, 5int)));
        },
    }
}

proof fn lemma_kw_val_at(s: Seq<char>, c: Cursor, v: Val, ty: Option<Seq<char>>)
    requires
        cursor_ok(s, c),
        val_ok(v),
        at(s, c.pos, val_txt(v)),
        entry_follow(s, c.pos + val_txt(v).len()),
        v is Bool || v is Null,
    ensures
        value_at(s, c) == Ok::<(Val, Cursor), KdlError>((v, walk(s, c, c.pos + val_txt(v).len()))),
        entry_body(s, ty, c) == Ok::<(Option<Entry>, Cursor), KdlError>(
            (Some(Entry::Arg { ty, value: v }), walk(s, c, c.pos + val_txt(v).len())),
        ),
{
    lemma_kw_facts(s, c, v, ty);
}

/// A value as the writer writes it, followed by a line feed or a space,
/// reads back as itself, as a value and as an argument.
proof fn lemma_val_at(s: Seq<char>, c: Cursor, v: Val, ty: Option<Seq<char>>)
    requires
        cursor_ok(s, c),
        val_ok(v),
        at(s, c.pos, val_txt(v)),
        entry_follow(s, c.pos + val_txt(v).len()),
    ensures
        value_at(s, c) == Ok::<(Val, Cursor), KdlError>((v, walk(s, c, c.pos + val_txt(v).len()))),
        entry_body(s, ty, c) == Ok::<(Option<Entry>, Cursor), KdlError>(
            (Some(Entry::Arg { ty, value: v }), walk(s, c, c.pos + val_txt(v).len())),
        ),
        cursor_ok(s, walk(s, c, c.pos + val_txt(v).len())),
        walk(s, c, c.pos + val_txt(v).len()).pos == c.pos + val_txt(v).len(),
        char_at(s, c.pos) is Some && hard(s[c.pos]) && s[c.pos] != '=' && s[c.pos] != '{'
            && s[c.pos] != '}' && s[c.pos] != ';' && s[c.pos] != '(',
{
    lemma_walk(s, c, c.pos + val_txt(v).len());
    lemma_at_char(s, c.pos, val_txt(v), 0);
    if v is Str {
        lemma_str_val_at(s, c, v, ty);
    } else if v is Num {
        lemma_num_val_at(s, c, v, ty);
        let raw = v->Num_0;
        if !(keyword_number_end(raw, 0) == Some(raw.len() as int)) {
            assert(scan_number(raw, 0) is Number);
            assert(identifier_char(raw[0]));
        }
    } else {
        lemma_kw_val_at(s, c, v, ty);
    }
}

/// A name as the writer writes it begins with a quote or an identifier
/// character.
proof fn lemma_ident_first(t: Seq<char>)
    ensures
        ident_text(t).len() > 0,
        ident_text(t)[0] == '"' || identifier_char(ident_text(t)[0]),
{
    if !bare_ok(t) {
        assert(quoted(t)[0] == '"');
    }
}

/// A type annotation as the writer writes it reads back as itself.
proof fn lemma_ty_at(s: Seq<char>, c: Cursor, ty: Option<Seq<char>>)
    requires
        cursor_ok(s, c),
        at(s, c.pos, ty_txt(ty)),
        ty is None ==> char_at(s, c.pos) != Some('('),
    ensures
        type_ann(s, c) == Ok::<(Option<Seq<char>>, Cursor), KdlError>(
            (ty, walk(s, c, c.pos + ty_txt(ty).len())),
        ),
        cursor_ok(s, walk(s, c, c.pos + ty_txt(ty).len())),
        walk(s, c, c.pos + ty_txt(ty).len()).pos == c.pos + ty_txt(ty).len(),
{
    let p = c.pos;
    let w = ty_txt(ty);
    let l = w.len() as int;
    lemma_walk(s, c, p + l);
    match ty {
        None => {
            lemma_walk_zero(s, c);
        },
        Some(t) => {
            let it = ident_text(t);
            let m = it.len() as int;
            assert(w =~= seq!['('] + it + seq![')']);
            lemma_at_char(s, p, w, 0);
            lemma_at_char(s, p, w, m + 1);
            assert(w[m + 1] == ')');
            lemma_step(s, c);
            let c1 = step(s, c);
            lemma_ident_first(t);
            lemma_at_char(s, p, w, 1);
            assert(w[1] == it[0]);
            assert(identifier_char('0'));
            lemma_nsp_none(s, c1);
            assert(s.subrange(p + 1, p + 1 + m) =~= it) by {
                assert forall|k: int| 0 <= k < m implies s.subrange(p + 1, p + 1 + m)[k] == it[k] by {
                    lemma_at_char(s, p, w, k + 1);
                }
            }
            lemma_ident_at(s, p + 1, t);
            lemma_walk(s, c1, p + 1 + m);
            let c3 = walk(s, c1, p + 1 + m);
            lemma_walk_trans(s, c, p + 1, p + 1 + m);
            lemma_nsp_none(s, c3);
            lemma_step(s, c3);
            lemma_walk_trans(s, c, p + 1 + m, p + l);
        },
    }
}

/// A bare name that does not begin like a number reads as no number.
proof fn lemma_key_not_number(s: Seq<char>, p: int, t: Seq<char>)
    requires
        at(s, p, ident_text(t)),
        char_at(s, p + ident_text(t).len()) == Some('='),
    ensures
        scan_number(s, p) == NumberScan::NotNumber,
        char_at(s, p) != Some('#'),
        char_at(s, p) != Some('('),
{
    let w = ident_text(t);
    lemma_ident_first(t);
    lemma_at_char(s, p, w, 0);
    if bare_ok(t) {
        if t.len() > 1 {
            lemma_at_char(s, p, w, 1);
        }
    }
}

proof fn lemma_arg_at(s: Seq<char>, c: Cursor, e: Entry)
    requires
        cursor_ok(s, c),
        entry_ok(e),
        e is Arg,
        at(s, c.pos, entry_txt(e)),
        entry_follow(s, c.pos + entry_txt(e).len()),
    ensures
        entry_at(s, c) == Ok::<(Option<Entry>, Cursor), KdlError>(
            (Some(e), walk(s, c, c.pos + entry_txt(e).len())),
        ),
        char_at(s, c.pos) is Some && hard(s[c.pos]) && s[c.pos] != '=' && s[c.pos] != '{'
            && s[c.pos] != '}' && s[c.pos] != ';',
{
    let p = c.pos;
    let l = entry_txt(e).len() as int;
    let ty = e->Arg_ty;
    let value = e->Arg_value;
    let tt = ty_txt(ty);
    lemma_at_split(s, p, tt, val_txt(value));
    let q = p + tt.len();
    if ty is None {
        lemma_val_at(s, c, value, ty);
        lemma_ty_at(s, c, ty);
        assert(tt.len() == 0);
        lemma_walk_zero(s, c);
    } else {
        assert(identifier_char('0'));
        lemma_ty_at(s, c, ty);
        let c1 = walk(s, c, q);
        lemma_val_at(s, c1, value, ty);
        lemma_nsp_none(s, c1);
        lemma_walk_trans(s, c, q, p + l);
        lemma_at_char(s, p, tt, 0);
    }
}

proof fn lemma_prop_tail(
    s: Seq<char>,
    key: Seq<char>,
    c3: Cursor,
    c5: Cursor,
    vt: Option<Seq<char>>,
    c6: Cursor,
    v: Val,
    c8: Cursor,
)
    requires
        wsp(s, c3) == Ok::<Cursor, KdlError>(c3),
        char_at(s, c3.pos) == Some('='),
        wsp(s, adv(s, c3)) == Ok::<Cursor, KdlError>(c5),
        type_ann(s, c5) == Ok::<(Option<Seq<char>>, Cursor), KdlError>((vt, c6)),
        vt is Some ==> nsp(s, c6) == Ok::<(Cursor, bool), KdlError>((c6, false)),
        value_at(s, c6) == Ok::<(Val, Cursor), KdlError>((v, c8)),
    ensures
        key_or_arg(s, None, key, c3) == Ok::<(Option<Entry>, Cursor), KdlError>(
            (Some(Entry::Prop { key, ty: vt, value: v }), c8),
        ),
{
}

proof fn lemma_prop_head(s: Seq<char>, c: Cursor, key: Seq<char>, c3: Cursor)
    requires
        char_at(s, c.pos) != Some('('),
        char_at(s, c.pos) != Some('#'),
        scan_number(s, c.pos) == NumberScan::NotNumber,
        string_scan(s, c.pos) == (StrScan::Str { text: key, end: c3.pos }),
        c3 == walk(s, c, c3.pos),
    ensures
        entry_at(s, c) == key_or_arg(s, None, key, c3),
{
    assert(type_ann(s, c) == Ok::<(Option<Seq<char>>, Cursor), KdlError>((None, c)));
    assert(str_at(s, c) == Ok::<(Option<Seq<char>>, Cursor), KdlError>((Some(key), c3)));
}

proof fn lemma_prop_rest(s: Seq<char>, c3: Cursor, key: Seq<char>, ty: Option<Seq<char>>, value: Val)
    requires
        cursor_ok(s, c3),
        val_ok(value),
        char_at(s, c3.pos) == Some('='),
        at(s, c3.pos + 1, ty_txt(ty) + val_txt(value)),
        entry_follow(s, c3.pos + 1 + ty_txt(ty).len() + val_txt(value).len()),
    ensures
        key_or_arg(s, None, key, c3) == Ok::<(Option<Entry>, Cursor), KdlError>(
            (
                Some(Entry::Prop { key, ty, value }),
                walk(s, c3, c3.pos + 1 + ty_txt(ty).len() + val_txt(value).len()),
            ),
        ),
{
    let k1 = c3.pos + 1;
    let l = k1 + ty_txt(ty).len() + val_txt(value).len();
    lemma_at_split(s, k1, ty_txt(ty), val_txt(value));
    assert(identifier_char('0'));
    lemma_nsp_none(s, c3);
    lemma_step(s, c3);
    let c5 = step(s, c3);
    assert(adv(s, c3) == c5);
    let q = k1 + ty_txt(ty).len();
    lemma_walk_trans(s, c3, k1, l);
    if ty is None {
        lemma_val_at(s, c5, value, ty);
        lemma_nsp_none(s, c5);
        lemma_ty_at(s, c5, ty);
        lemma_walk_zero(s, c5);
        lemma_prop_tail(s, key, c3, c5, ty, c5, value, walk(s, c5, l));
    } else {
        lemma_ty_at(s, c5, ty);
        lemma_at_char(s, k1, ty_txt(ty), 0);
        lemma_nsp_none(s, c5);
        let c6 = walk(s, c5, q);
        lemma_val_at(s, c6, value, ty);
        lemma_nsp_none(s, c6);
        lemma_walk_trans(s, c5, q, l);
        lemma_prop_tail(s, key, c3, c5, ty, c6, value, walk(s, c5, l));
    }
}

#[verifier::rlimit(80)]
proof fn lemma_prop_at(s: Seq<char>, c: Cursor, e: Entry)
    requires
        cursor_ok(s, c),
        entry_ok(e),
        e is Prop,
        at(s, c.pos, entry_txt(e)),
        entry_follow(s, c.pos + entry_txt(e).len()),
    ensures
        entry_at(s, c) == Ok::<(Option<Entry>, Cursor), KdlError>(
            (Some(e), walk(s, c, c.pos + entry_txt(e).len())),
        ),
        char_at(s, c.pos) is Some && hard(s[c.pos]) && s[c.pos] != '=' && s[c.pos] != '{'
            && s[c.pos] != '}' && s[c.pos] != ';',
{
    let p = c.pos;
    let l = entry_txt(e).len() as int;
    let key = e->Prop_key;
    let ty = e->Prop_ty;
    let value = e->Prop_value;
    let ik = ident_text(key);
    let k = ik.len() as int;
    let rest = ty_txt(ty) + val_txt(value);
    assert(entry_txt(e) =~= ik + (seq!['='] + rest));
    lemma_at_split(s, p, ik, seq!['='] + rest);
    lemma_at_split(s, p + k, seq!['='], rest);
    lemma_at_char(s, p + k, seq!['='], 0);
    lemma_key_not_number(s, p, key);
    lemma_ident_first(key);
    lemma_at_char(s, p, ik, 0);
    assert(identifier_char('0'));
    lemma_ident_at(s, p, key);
    lemma_walk(s, c, p + k);
    let c3 = walk(s, c, p + k);
    lemma_prop_head(s, c, key, c3);
    lemma_prop_rest(s, c3, key, ty, value);
    lemma_walk_trans(s, c, p + k, p + l);
}

/// An entry as the writer writes it, followed by a line feed or a space,
/// reads back as itself.
proof fn lemma_entry_at(s: Seq<char>, c: Cursor, e: Entry)
    requires
        cursor_ok(s, c),
        entry_ok(e),
        at(s, c.pos, entry_txt(e)),
        entry_follow(s, c.pos + entry_txt(e).len()),
    ensures
        entry_at(s, c) == Ok::<(Option<Entry>, Cursor), KdlError>(
            (Some(e), walk(s, c, c.pos + entry_txt(e).len())),
        ),
        cursor_ok(s, walk(s, c, c.pos + entry_txt(e).len())),
        walk(s, c, c.pos + entry_txt(e).len()).pos == c.pos + entry_txt(e).len(),
        char_at(s, c.pos) is Some && hard(s[c.pos]) && s[c.pos] != '=' && s[c.pos] != '{'
            && s[c.pos] != '}' && s[c.pos] != ';',
{
    lemma_walk(s, c, c.pos + entry_txt(e).len());
    if e is Arg {
        lemma_arg_at(s, c, e);
    } else {
        lemma_prop_at(s, c, e);
    }
}

// ---- one step of the grammar at a time ----

proof fn lemma_entry_sd_none(s: Seq<char>, c: Cursor)
    requires
        char_at(s, c.pos) != Some('/'),
    ensures
        entry_sd(s, c) == Ok::<(Cursor, bool), KdlError>((c, false)),
{
}

proof fn lemma_entries_step(
    s: Seq<char>,
    c: Cursor,
    ty: Option<Seq<char>>,
    name: Seq<char>,
    es: Seq<Entry>,
    en: Entry,
    c1: Cursor,
    c3: Cursor,
)
    requires
        nsp(s, c) == Ok::<(Cursor, bool), KdlError>((c1, true)),
        entry_sd(s, c1) == Ok::<(Cursor, bool), KdlError>((c1, false)),
        char_at(s, c1.pos) != Some('{'),
        entry_at(s, c1) == Ok::<(Option<Entry>, Cursor), KdlError>((Some(en), c3)),
        c.pos < c3.pos <= s.len(),
    ensures
        entries_from(s, c, ty, name, es) == entries_from(s, c3, ty, name, es.push(en)),
{
}

proof fn lemma_entries_end_none(
    s: Seq<char>,
    c: Cursor,
    ty: Option<Seq<char>>,
    name: Seq<char>,
    es: Seq<Entry>,
)
    requires
        nsp(s, c) == Ok::<(Cursor, bool), KdlError>((c, false)),
        char_at(s, c.pos) == Some('\n'),
    ensures
        entries_from(s, c, ty, name, es) == Ok::<(Node, Cursor), KdlError>(
            (Node { ty, name, entries: es, children: None }, c),
        ),
{
}

proof fn lemma_entries_end_kids(
    s: Seq<char>,
    c: Cursor,
    ty: Option<Seq<char>>,
    name: Seq<char>,
    es: Seq<Entry>,
    c1: Cursor,
    kids: Seq<Node>,
    c4: Cursor,
    c5: Cursor,
)
    requires
        nsp(s, c) == Ok::<(Cursor, bool), KdlError>((c1, true)),
        entry_sd(s, c1) == Ok::<(Cursor, bool), KdlError>((c1, false)),
        char_at(s, c1.pos) == Some('{'),
        c.pos < adv(s, c1).pos <= s.len(),
        nodes_from(s, adv(s, c1), true, Seq::empty()) == Ok::<(Seq<Node>, Cursor), KdlError>(
            (kids, c4),
        ),
        expect_at(s, c4, '}') == Ok::<Cursor, KdlError>(c5),
        c.pos < c5.pos <= s.len(),
        children_tail(s, c5) == Ok::<Cursor, KdlError>(c5),
    ensures
        entries_from(s, c, ty, name, es) == Ok::<(Node, Cursor), KdlError>(
            (Node { ty, name, entries: es, children: Some(kids) }, c5),
        ),
{
}

proof fn lemma_children_tail_nl(s: Seq<char>, c: Cursor)
    requires
        cursor_ok(s, c),
        char_at(s, c.pos) == Some('\n'),
    ensures
        children_tail(s, c) == Ok::<Cursor, KdlError>(c),
{
    lemma_nsp_none(s, c);
}

proof fn lemma_nodes_step(
    s: Seq<char>,
    c: Cursor,
    ic: bool,
    acc: Seq<Node>,
    c1: Cursor,
    n: Node,
    c4: Cursor,
)
    requires
        lsp(s, c) == Ok::<Cursor, KdlError>(c1),
        lsp(s, c1) == Ok::<Cursor, KdlError>(c1),
        char_at(s, c1.pos) is Some,
        char_at(s, c1.pos) != Some('}'),
        char_at(s, c1.pos) != Some('/'),
        c.pos <= c1.pos <= s.len(),
        node_at(s, c1) == Ok::<(Option<Node>, Cursor), KdlError>((Some(n), c4)),
        char_at(s, c4.pos) == Some('\n'),
        c.pos < step(s, c4).pos <= s.len(),
        newline_step(s, c4) == step(s, c4),
    ensures
        nodes_from(s, c, ic, acc) == nodes_from(s, step(s, c4), ic, acc.push(n)),
{
}

proof fn lemma_nodes_end(s: Seq<char>, c: Cursor, ic: bool, acc: Seq<Node>, c1: Cursor)
    requires
        lsp(s, c) == Ok::<Cursor, KdlError>(c1),
        (ic && char_at(s, c1.pos) == Some('}')) || c1.pos >= s.len(),
    ensures
        nodes_from(s, c, ic, acc) == Ok::<(Seq<Node>, Cursor), KdlError>((acc, c1)),
{
}

// ---- nodes ----

/// Every number of the node and of the nodes below it is as the model
/// holds numbers.
pub open spec fn toks_node(n: Node) -> bool
    decreases n, 1nat,
{
    &&& forall|i: int| 0 <= i < n.entries.len() ==> entry_ok(#[trigger] n.entries[i])
    &&& match n.children {
        Some(c) => toks_nodes(c),
        None => true,
    }
}

pub open spec fn toks_nodes(ns: Seq<Node>) -> bool
    decreases ns, 0nat,
{
    ns.len() == 0 || (toks_node(ns[0]) && toks_nodes(ns.drop_first()))
}

/// No block of children, in the node or below it, is empty.
pub open spec fn blocks_node(n: Node) -> bool
    decreases n, 1nat,
{
    match n.children {
        Some(c) => c.len() > 0 && blocks_nodes(c),
        None => true,
    }
}

pub open spec fn blocks_nodes(ns: Seq<Node>) -> bool
    decreases ns, 0nat,
{
    ns.len() == 0 || (blocks_node(ns[0]) && blocks_nodes(ns.drop_first()))
}

proof fn lemma_indent(d: nat)
    ensures
        forall|i: int| 0 <= i < indent_text(d).len() ==> #[trigger] indent_text(d)[i] == ' ',
    decreases d,
{
    if d > 0 {
        let a = indent_text((d - 1) as nat);
        lemma_indent((d - 1) as nat);
        assert forall|i: int| 0 <= i < indent_text(d).len() implies #[trigger] indent_text(d)[i]
            == ' ' by {
            assert(indent_text(d) == a + seq![' ', ' ', ' ', ' ']);
            if i < a.len() {
                assert(indent_text(d)[i] == a[i]);
            }
        }
    }
}

proof fn lemma_entry_first(e: Entry)
    requires
        entry_ok(e),
    ensures
        entry_txt(e).len() > 0,
        hard(entry_txt(e)[0]),
        entry_txt(e)[0] != '=' && entry_txt(e)[0] != '{' && entry_txt(e)[0] != '}',
{
    assert(identifier_char('0'));
    match e {
        Entry::Arg { ty, value } => {
            if ty is None {
                match value {
                    Val::Num(raw, i) => {
                        if !(keyword_number_end(raw, 0) == Some(raw.len() as int)) {
                            assert(scan_number(raw, 0) is Number);
                        }
                        assert(entry_txt(e)[0] == raw[0]);
                    },
                    Val::Str(t) => {
                        assert(entry_txt(e)[0] == quoted(t)[0]);
                    },
                    _ => {
                        assert(entry_txt(e)[0] == val_txt(value)[0]);
                    },
                }
            } else {
                assert(entry_txt(e)[0] == ty_txt(ty)[0]);
            }
        },
        Entry::Prop { key, ty, value } => {
            lemma_ident_first(key);
            assert(entry_txt(e)[0] == ident_text(key)[0]);
        },
    }
}

/// Blank characters of `w` standing in `s` at `q`.
proof fn lemma_blank_at(s: Seq<char>, q: int, w: Seq<char>)
    requires
        at(s, q, w),
        forall|i: int| 0 <= i < w.len() ==> (#[trigger] w[i] == ' ' || w[i] == '\n'),
    ensures
        forall|i: int| q <= i < q + w.len() ==> (#[trigger] s[i] == ' ' || s[i] == '\n'),
{
    assert forall|i: int| q <= i < q + w.len() implies (#[trigger] s[i] == ' ' || s[i] == '\n') by {
        lemma_at_char(s, q, w, i - q);
    }
}

// ---- the grammar seen one node at a time ----

// Each reading function of the grammar under a name whose definition is
// hidden, so that a proof about one node or entry unfolds only the step it
// takes.

#[verifier::opaque]
spec fn read_nodes(s: Seq<char>, c: Cursor, ic: bool, acc: Seq<Node>) -> Result<(Seq<Node>, Cursor), KdlError> {
    nodes_from(s, c, ic, acc)
}

#[verifier::opaque]
spec fn read_entries(s: Seq<char>, c: Cursor, ty: Option<Seq<char>>, name: Seq<char>, es: Seq<Entry>) -> Result<
    (Node, Cursor),
    KdlError,
> {
    entries_from(s, c, ty, name, es)
}

#[verifier::opaque]
spec fn read_node(s: Seq<char>, c: Cursor) -> Result<(Option<Node>, Cursor), KdlError> {
    node_at(s, c)
}

#[verifier::opaque]
spec fn read_node_space(s: Seq<char>, c: Cursor) -> Result<(Cursor, bool), KdlError> {
    nsp(s, c)
}

#[verifier::opaque]
spec fn read_line_space(s: Seq<char>, c: Cursor) -> Result<Cursor, KdlError> {
    lsp(s, c)
}

#[verifier::opaque]
spec fn read_slashdash(s: Seq<char>, c: Cursor) -> Result<(Cursor, bool), KdlError> {
    entry_sd(s, c)
}

#[verifier::opaque]
spec fn read_entry(s: Seq<char>, c: Cursor) -> Result<(Option<Entry>, Cursor), KdlError> {
    entry_at(s, c)
}

#[verifier::opaque]
spec fn read_string(s: Seq<char>, c: Cursor) -> Result<(Option<Seq<char>>, Cursor), KdlError> {
    str_at(s, c)
}

#[verifier::opaque]
spec fn read_type(s: Seq<char>, c: Cursor) -> Result<(Option<Seq<char>>, Cursor), KdlError> {
    type_ann(s, c)
}

#[verifier::opaque]
spec fn read_char(s: Seq<char>, c: Cursor, ch: char) -> Result<Cursor, KdlError> {
    expect_at(s, c, ch)
}

#[verifier::opaque]
spec fn read_tail(s: Seq<char>, c: Cursor) -> Result<Cursor, KdlError> {
    children_tail(s, c)
}

proof fn lemma_read_no_space(s: Seq<char>, c: Cursor)
    requires
        cursor_ok(s, c),
        match char_at(s, c.pos) {
            None => true,
            Some(ch) => !unicode_space(ch) && ch != '/' && ch != '\\',
        },
    ensures
        read_node_space(s, c) == Ok::<(Cursor, bool), KdlError>((c, false)),
{
    reveal(read_node_space);
    lemma_nsp_none(s, c);
}

proof fn lemma_read_one_space(s: Seq<char>, c: Cursor)
    requires
        cursor_ok(s, c),
        char_at(s, c.pos) == Some(' '),
        match char_at(s, c.pos + 1) {
            None => true,
            Some(ch) => !unicode_space(ch) && ch != '/' && ch != '\\',
        },
    ensures
        read_node_space(s, c) == Ok::<(Cursor, bool), KdlError>((step(s, c), true)),
        step(s, c).pos == c.pos + 1,
        cursor_ok(s, step(s, c)),
        step(s, c) == walk(s, c, c.pos + 1),
{
    reveal(read_node_space);
    lemma_nsp_one(s, c);
    lemma_step(s, c);
}

proof fn lemma_read_line_space(s: Seq<char>, c: Cursor, q: int)
    requires
        cursor_ok(s, c),
        c.pos <= q <= s.len(),
        forall|i: int| c.pos <= i < q ==> (#[trigger] s[i] == ' ' || s[i] == '\n'),
        hard_at(s, q),
    ensures
        read_line_space(s, c) == Ok::<Cursor, KdlError>(walk(s, c, q)),
        cursor_ok(s, walk(s, c, q)),
        walk(s, c, q).pos == q,
{
    reveal(read_line_space);
    lemma_lsp(s, c, q);
}

proof fn lemma_read_no_slashdash(s: Seq<char>, c: Cursor)
    requires
        char_at(s, c.pos) != Some('/'),
    ensures
        read_slashdash(s, c) == Ok::<(Cursor, bool), KdlError>((c, false)),
{
    reveal(read_slashdash);
    lemma_entry_sd_none(s, c);
}

proof fn lemma_read_entry(s: Seq<char>, c: Cursor, e: Entry)
    requires
        cursor_ok(s, c),
        entry_ok(e),
        at(s, c.pos, entry_txt(e)),
        entry_follow(s, c.pos + entry_txt(e).len()),
    ensures
        read_entry(s, c) == Ok::<(Option<Entry>, Cursor), KdlError>(
            (Some(e), walk(s, c, c.pos + entry_txt(e).len())),
        ),
        cursor_ok(s, walk(s, c, c.pos + entry_txt(e).len())),
        walk(s, c, c.pos + entry_txt(e).len()).pos == c.pos + entry_txt(e).len(),
{
    reveal(read_entry);
    lemma_entry_at(s, c, e);
}

proof fn lemma_read_name(s: Seq<char>, c: Cursor, t: Seq<char>)
    requires
        cursor_ok(s, c),
        at(s, c.pos, ident_text(t)),
        char_at(s, c.pos + ident_text(t).len()) == Some(' ') || char_at(
            s,
            c.pos + ident_text(t).len(),
        ) == Some('\n'),
    ensures
        read_string(s, c) == Ok::<(Option<Seq<char>>, Cursor), KdlError>(
            (Some(t), walk(s, c, c.pos + ident_text(t).len())),
        ),
        cursor_ok(s, walk(s, c, c.pos + ident_text(t).len())),
        walk(s, c, c.pos + ident_text(t).len()).pos == c.pos + ident_text(t).len(),
{
    reveal(read_string);
    lemma_ident_at(s, c.pos, t);
    lemma_walk(s, c, c.pos + ident_text(t).len());
}

proof fn lemma_read_type(s: Seq<char>, c: Cursor, ty: Option<Seq<char>>)
    requires
        cursor_ok(s, c),
        at(s, c.pos, ty_txt(ty)),
        ty is None ==> char_at(s, c.pos) != Some('('),
    ensures
        read_type(s, c) == Ok::<(Option<Seq<char>>, Cursor), KdlError>(
            (ty, walk(s, c, c.pos + ty_txt(ty).len())),
        ),
        cursor_ok(s, walk(s, c, c.pos + ty_txt(ty).len())),
        walk(s, c, c.pos + ty_txt(ty).len()).pos == c.pos + ty_txt(ty).len(),
{
    reveal(read_type);
    lemma_ty_at(s, c, ty);
}

proof fn lemma_read_char(s: Seq<char>, c: Cursor, ch: char)
    requires
        cursor_ok(s, c),
        char_at(s, c.pos) == Some(ch),
    ensures
        read_char(s, c, ch) == Ok::<Cursor, KdlError>(step(s, c)),
        step(s, c).pos == c.pos + 1,
        cursor_ok(s, step(s, c)),
        step(s, c) == walk(s, c, c.pos + 1),
{
    reveal(read_char);
    lemma_step(s, c);
}

proof fn lemma_read_tail_nl(s: Seq<char>, c: Cursor)
    requires
        cursor_ok(s, c),
        char_at(s, c.pos) == Some('\n'),
    ensures
        read_tail(s, c) == Ok::<Cursor, KdlError>(c),
{
    reveal(read_tail);
    lemma_children_tail_nl(s, c);
}

proof fn lemma_read_entries_step(
    s: Seq<char>,
    c: Cursor,
    ty: Option<Seq<char>>,
    name: Seq<char>,
    es: Seq<Entry>,
    en: Entry,
    c1: Cursor,
    c3: Cursor,
)
    requires
        read_node_space(s, c) == Ok::<(Cursor, bool), KdlError>((c1, true)),
        read_slashdash(s, c1) == Ok::<(Cursor, bool), KdlError>((c1, false)),
        char_at(s, c1.pos) != Some('{'),
        read_entry(s, c1) == Ok::<(Option<Entry>, Cursor), KdlError>((Some(en), c3)),
        c.pos < c3.pos <= s.len(),
    ensures
        read_entries(s, c, ty, name, es) == read_entries(s, c3, ty, name, es.push(en)),
{
    reveal(read_node_space);
    reveal(read_slashdash);
    reveal(read_entry);
    reveal(read_entries);
    lemma_entries_step(s, c, ty, name, es, en, c1, c3);
}

proof fn lemma_read_entries_end(
    s: Seq<char>,
    c: Cursor,
    ty: Option<Seq<char>>,
    name: Seq<char>,
    es: Seq<Entry>,
)
    requires
        read_node_space(s, c) == Ok::<(Cursor, bool), KdlError>((c, false)),
        char_at(s, c.pos) == Some('\n'),
    ensures
        read_entries(s, c, ty, name, es) == Ok::<(Node, Cursor), KdlError>(
            (Node { ty, name, entries: es, children: None }, c),
        ),
{
    reveal(read_node_space);
    reveal(read_entries);
    lemma_entries_end_none(s, c, ty, name, es);
}

proof fn lemma_read_entries_kids(
    s: Seq<char>,
    c: Cursor,
    ty: Option<Seq<char>>,
    name: Seq<char>,
    es: Seq<Entry>,
    c1: Cursor,
    kids: Seq<Node>,
    c4: Cursor,
    c5: Cursor,
)
    requires
        read_node_space(s, c) == Ok::<(Cursor, bool), KdlError>((c1, true)),
        read_slashdash(s, c1) == Ok::<(Cursor, bool), KdlError>((c1, false)),
        char_at(s, c1.pos) == Some('{'),
        c.pos < adv(s, c1).pos <= s.len(),
        read_nodes(s, adv(s, c1), true, Seq::empty()) == Ok::<(Seq<Node>, Cursor), KdlError>((kids, c4)),
        read_char(s, c4, '}') == Ok::<Cursor, KdlError>(c5),
        c.pos < c5.pos <= s.len(),
        read_tail(s, c5) == Ok::<Cursor, KdlError>(c5),
    ensures
        read_entries(s, c, ty, name, es) == Ok::<(Node, Cursor), KdlError>(
            (Node { ty, name, entries: es, children: Some(kids) }, c5),
        ),
{
    reveal(read_node_space);
    reveal(read_slashdash);
    reveal(read_nodes);
    reveal(read_char);
    reveal(read_tail);
    reveal(read_entries);
    lemma_entries_end_kids(s, c, ty, name, es, c1, kids, c4, c5);
}

proof fn lemma_read_nodes_step(
    s: Seq<char>,
    c: Cursor,
    ic: bool,
    acc: Seq<Node>,
    c1: Cursor,
    n: Node,
    c4: Cursor,
)
    requires
        read_line_space(s, c) == Ok::<Cursor, KdlError>(c1),
        read_line_space(s, c1) == Ok::<Cursor, KdlError>(c1),
        char_at(s, c1.pos) is Some,
        char_at(s, c1.pos) != Some('}'),
        char_at(s, c1.pos) != Some('/'),
        c.pos <= c1.pos <= s.len(),
        read_node(s, c1) == Ok::<(Option<Node>, Cursor), KdlError>((Some(n), c4)),
        char_at(s, c4.pos) == Some('\n'),
        c.pos < step(s, c4).pos <= s.len(),
        newline_step(s, c4) == step(s, c4),
    ensures
        read_nodes(s, c, ic, acc) == read_nodes(s, step(s, c4), ic, acc.push(n)),
{
    reveal(read_line_space);
    reveal(read_node);
    reveal(read_nodes);
    lemma_nodes_step(s, c, ic, acc, c1, n, c4);
}

proof fn lemma_read_nodes_end(s: Seq<char>, c: Cursor, ic: bool, acc: Seq<Node>, c1: Cursor)
    requires
        read_line_space(s, c) == Ok::<Cursor, KdlError>(c1),
        (ic && char_at(s, c1.pos) == Some('}')) || c1.pos >= s.len(),
    ensures
        read_nodes(s, c, ic, acc) == Ok::<(Seq<Node>, Cursor), KdlError>((acc, c1)),
{
    reveal(read_line_space);
    reveal(read_nodes);
    lemma_nodes_end(s, c, ic, acc, c1);
}

proof fn lemma_read_node_lift(
    s: Seq<char>,
    c: Cursor,
    ty: Option<Seq<char>>,
    c1: Cursor,
    name: Seq<char>,
    c3: Cursor,
)
    requires
        read_type(s, c) == Ok::<(Option<Seq<char>>, Cursor), KdlError>((ty, c1)),
        ty is Some ==> read_node_space(s, c1) == Ok::<(Cursor, bool), KdlError>((c1, false)),
        read_string(s, c1) == Ok::<(Option<Seq<char>>, Cursor), KdlError>((Some(name), c3)),
        c.pos <= c3.pos <= s.len(),
    ensures
        read_node(s, c) == (match read_entries(s, c3, ty, name, Seq::empty()) {
            Ok((m, c4)) => Ok::<(Option<Node>, Cursor), KdlError>((Some(m), c4)),
            Err(e) => Err(e),
        }),
{
    reveal(read_type);
    reveal(read_node_space);
    reveal(read_string);
    reveal(read_node);
    reveal(read_entries);
}

/// The text from an entry on: the entries from the `i`-th, the block of
/// children and the line feed.
spec fn entries_rest(n: Node, depth: nat, i: int) -> Seq<char> {
    entries_txt(n.entries.skip(i)) + node_tail(n, depth) + seq!['\n']
}

/// One entry read: the rest of the node is read from after it.
proof fn lemma_entries_next(s: Seq<char>, c: Cursor, n: Node, depth: nat, i: int)
    requires
        cursor_ok(s, c),
        toks_node(n),
        0 <= i < n.entries.len(),
        at(s, c.pos, entries_rest(n, depth, i)),
    ensures
        ({
            let c3 = walk(s, c, c.pos + 1 + entry_txt(n.entries[i]).len());
            &&& read_entries(s, c, n.ty, n.name, n.entries.take(i)) == read_entries(
                s,
                c3,
                n.ty,
                n.name,
                n.entries.take(i + 1),
            )
            &&& cursor_ok(s, c3)
            &&& c3.pos == c.pos + 1 + entry_txt(n.entries[i]).len()
            &&& at(s, c3.pos, entries_rest(n, depth, i + 1))
            &&& entries_txt(n.entries.skip(i)).len() == 1 + entry_txt(n.entries[i]).len()
                + entries_txt(n.entries.skip(i + 1)).len()
        }),
{
    let es = n.entries;
    let p = c.pos;
    let tail = node_tail(n, depth);
    let r = es.skip(i);
    let e = es[i];
    let r1 = es.skip(i + 1);
    assert(r[0] == e);
    assert(r.drop_first() =~= r1);
    let et = entry_txt(e);
    let after = entries_txt(r1) + tail + seq!['\n'];
    assert(entries_txt(r) == seq![' '] + et + entries_txt(r1));
    assert(entries_rest(n, depth, i) =~= seq![' '] + (et + after));
    lemma_at_split(s, p, seq![' '], et + after);
    lemma_at_split(s, p + 1, et, after);
    lemma_at_char(s, p, seq![' '], 0);
    assert(entry_ok(e));
    lemma_entry_first(e);
    lemma_at_char(s, p + 1, et, 0);
    lemma_read_one_space(s, c);
    let c1 = step(s, c);
    lemma_read_no_slashdash(s, c1);
    if r1.len() > 0 {
        assert(r1[0] == es[i + 1]);
        assert(entry_ok(es[i + 1]));
        lemma_entry_first(es[i + 1]);
        assert(entries_txt(r1) == seq![' '] + entry_txt(r1[0]) + entries_txt(r1.drop_first()));
        assert(after[0] == ' ');
        assert(after[1] == entry_txt(r1[0])[0]);
        lemma_at_char(s, p + 1 + et.len(), after, 0);
        lemma_at_char(s, p + 1 + et.len(), after, 1);
    } else {
        assert(entries_txt(r1).len() == 0);
        assert(after =~= tail + seq!['\n']);
        lemma_at_char(s, p + 1 + et.len(), after, 0);
        if tail.len() > 0 {
            assert(after[0] == ' ');
            assert(after[1] == '{');
            lemma_at_char(s, p + 1 + et.len(), after, 1);
        } else {
            assert(after[0] == '\n');
        }
    }
    lemma_read_entry(s, c1, e);
    let c3 = walk(s, c1, p + 1 + et.len());
    lemma_read_entries_step(s, c, n.ty, n.name, es.take(i), e, c1, c3);
    assert(es.take(i).push(e) =~= es.take(i + 1));
    lemma_walk_trans(s, c, p + 1, p + 1 + et.len());
    assert(after == entries_rest(n, depth, i + 1));
}

/// No entries and no block of children left: the node ends at the line feed.
proof fn lemma_entries_none(s: Seq<char>, c: Cursor, n: Node, depth: nat)
    requires
        cursor_ok(s, c),
        n.children is None,
        at(s, c.pos, entries_rest(n, depth, n.entries.len() as int)),
    ensures
        read_entries(s, c, n.ty, n.name, n.entries) == Ok::<(Node, Cursor), KdlError>((n, c)),
        entries_txt(n.entries.skip(n.entries.len() as int)).len() == 0,
        node_tail(n, depth).len() == 0,
{
    let r = n.entries.skip(n.entries.len() as int);
    assert(r.len() == 0);
    assert(entries_rest(n, depth, n.entries.len() as int) =~= seq!['\n']);
    lemma_at_char(s, c.pos, seq!['\n'], 0);
    lemma_read_no_space(s, c);
    lemma_read_entries_end(s, c, n.ty, n.name, n.entries);
}

/// No entries left, and a block of children: what stands after its `{`.
proof fn lemma_kids_open(s: Seq<char>, c: Cursor, n: Node, depth: nat)
    requires
        cursor_ok(s, c),
        n.children is Some,
        n.children->0.len() > 0,
        at(s, c.pos, entries_rest(n, depth, n.entries.len() as int)),
    ensures
        ({
            let kids = n.children->0;
            let p = c.pos;
            let kt = nodes_txt(kids, depth + 1);
            let c3 = walk(s, c, p + 2);
            &&& cursor_ok(s, c3)
            &&& c3.pos == p + 2
            &&& char_at(s, p + 2) == Some('\n')
            &&& at(s, p + 3, kt)
            &&& at(s, p + 3 + kt.len(), indent_text(depth) + seq!['}'])
            &&& char_at(s, p + 3 + kt.len() + indent_text(depth).len()) == Some('}')
            &&& char_at(s, p + 3 + kt.len() + indent_text(depth).len() + 1) == Some('\n')
            &&& char_at(s, p) == Some(' ')
            &&& char_at(s, p + 1) == Some('{')
            &&& entries_txt(n.entries.skip(n.entries.len() as int)).len() == 0
            &&& node_tail(n, depth).len() == 3 + kt.len() + indent_text(depth).len() + 1
        }),
{
    let kids = n.children->0;
    let p = c.pos;
    let r = n.entries.skip(n.entries.len() as int);
    assert(r.len() == 0);
    let tail = node_tail(n, depth);
    let kt = nodes_txt(kids, depth + 1);
    let ind = indent_text(depth);
    assert(tail =~= seq![' ', '{', '\n'] + kt + ind + seq!['}']);
    let w = entries_rest(n, depth, n.entries.len() as int);
    assert(w =~= seq![' ', '{', '\n'] + (kt + ((ind + seq!['}']) + seq!['\n'])));
    lemma_at_split(s, p, seq![' ', '{', '\n'], kt + ((ind + seq!['}']) + seq!['\n']));
    lemma_at_split(s, p + 3, kt, (ind + seq!['}']) + seq!['\n']);
    lemma_at_split(s, p + 3 + kt.len(), ind + seq!['}'], seq!['\n']);
    lemma_at_char(s, p, seq![' ', '{', '\n'], 0);
    lemma_at_char(s, p, seq![' ', '{', '\n'], 1);
    lemma_at_char(s, p, seq![' ', '{', '\n'], 2);
    lemma_at_char(s, p + 3 + kt.len(), ind + seq!['}'], ind.len() as int);
    lemma_at_char(s, p + 3 + kt.len() + ind.len() + 1, seq!['\n'], 0);
    lemma_walk(s, c, p + 2);
}

/// The block of children read up to its `}`: the node ends at the line
/// feed after it.
proof fn lemma_kids_close(s: Seq<char>, c: Cursor, n: Node, depth: nat, f: int)
    requires
        cursor_ok(s, c),
        n.children is Some,
        n.children->0.len() > 0,
        at(s, c.pos, entries_rest(n, depth, n.entries.len() as int)),
        f == c.pos + 3 + nodes_txt(n.children->0, depth + 1).len() + indent_text(depth).len(),
        read_nodes(s, walk(s, c, c.pos + 2), true, Seq::empty()) == Ok::<(Seq<Node>, Cursor), KdlError>(
            (n.children->0, walk(s, c, f)),
        ),
    ensures
        read_entries(s, c, n.ty, n.name, n.entries) == Ok::<(Node, Cursor), KdlError>(
            (n, walk(s, c, f + 1)),
        ),
{
    let kids = n.children->0;
    let p = c.pos;
    lemma_kids_open(s, c, n, depth);
    lemma_read_one_space(s, c);
    let c1 = step(s, c);
    lemma_read_no_slashdash(s, c1);
    lemma_step(s, c1);
    let c3 = step(s, c1);
    assert(adv(s, c1) == c3);
    lemma_walk_trans(s, c, p + 1, p + 2);
    lemma_walk(s, c, f);
    let c4 = walk(s, c, f);
    lemma_read_char(s, c4, '}');
    let c5 = step(s, c4);
    lemma_read_tail_nl(s, c5);
    lemma_read_entries_kids(s, c, n.ty, n.name, n.entries, c1, kids, c4, c5);
    lemma_walk_trans(s, c, f, f + 1);
}

/// A node opened: its type annotation and name read, the rest is its
/// entries.
proof fn lemma_node_open(s: Seq<char>, c: Cursor, n: Node, depth: nat)
    requires
        cursor_ok(s, c),
        at(s, c.pos, node_head(n) + node_tail(n, depth) + seq!['\n']),
    ensures
        ({
            let p2 = c.pos + ty_txt(n.ty).len() + ident_text(n.name).len();
            let c3 = walk(s, c, p2);
            &&& cursor_ok(s, c3)
            &&& c3.pos == p2
            &&& at(s, p2, entries_rest(n, depth, 0))
            &&& read_node(s, c) == (match read_entries(s, c3, n.ty, n.name, Seq::empty()) {
                Ok((m, c4)) => Ok::<(Option<Node>, Cursor), KdlError>((Some(m), c4)),
                Err(e) => Err(e),
            })
            &&& node_head(n).len() == ty_txt(n.ty).len() + ident_text(n.name).len() + entries_txt(
                n.entries.skip(0),
            ).len()
        }),
{
    let p = c.pos;
    let tt = ty_txt(n.ty);
    let it = ident_text(n.name);
    let rest = entries_txt(n.entries) + node_tail(n, depth) + seq!['\n'];
    assert(n.entries.skip(0) =~= n.entries);
    assert(node_head(n) + node_tail(n, depth) + seq!['\n'] =~= tt + (it + rest));
    lemma_at_split(s, p, tt, it + rest);
    lemma_at_split(s, p + tt.len(), it, rest);
    lemma_ident_first(n.name);
    lemma_at_char(s, p + tt.len(), it, 0);
    assert(identifier_char('0'));
    if n.ty is None {
        assert(tt.len() == 0);
    }
    lemma_read_type(s, c, n.ty);
    let c1 = walk(s, c, p + tt.len());
    lemma_read_no_space(s, c1);
    if n.entries.len() > 0 {
        assert(rest[0] == ' ');
    } else if node_tail(n, depth).len() > 0 {
        assert(rest[0] == ' ');
    } else {
        assert(rest[0] == '\n');
    }
    lemma_at_char(s, p + tt.len() + it.len(), rest, 0);
    lemma_read_name(s, c1, n.name);
    let p2 = p + tt.len() + it.len();
    lemma_walk_trans(s, c, p + tt.len(), p2);
    lemma_read_node_lift(s, c, n.ty, c1, n.name, walk(s, c1, p2));
    assert(rest == entries_rest(n, depth, 0));
}

/// No node left: line space up to the end of the text, or to the `}` that
/// closes the block.
proof fn lemma_nodes_last(s: Seq<char>, c: Cursor, q: int, depth: nat, ic: bool, acc: Seq<Node>)
    requires
        cursor_ok(s, c),
        c.pos <= q,
        forall|i: int| c.pos <= i < q ==> (#[trigger] s[i] == ' ' || s[i] == '\n'),
        ic ==> depth >= 1 && at(s, q, indent_text((depth - 1) as nat) + seq!['}']),
        !ic ==> q == s.len(),
    ensures
        ({
            let f = if ic {
                q + indent_text((depth - 1) as nat).len()
            } else {
                q
            };
            &&& read_nodes(s, c, ic, acc) == Ok::<(Seq<Node>, Cursor), KdlError>((acc, walk(s, c, f)))
            &&& cursor_ok(s, walk(s, c, f))
            &&& walk(s, c, f).pos == f
        }),
{
    if ic {
        let ind = indent_text((depth - 1) as nat);
        let f = q + ind.len();
        lemma_at_split(s, q, ind, seq!['}']);
        lemma_indent((depth - 1) as nat);
        lemma_blank_at(s, q, ind);
        lemma_at_char(s, f, seq!['}'], 0);
        lemma_read_line_space(s, c, f);
        lemma_read_nodes_end(s, c, ic, acc, walk(s, c, f));
    } else {
        lemma_read_line_space(s, c, q);
        lemma_read_nodes_end(s, c, ic, acc, walk(s, c, q));
    }
}

/// The first of the nodes: line space up to it, then it, then the line feed.
proof fn lemma_nodes_first(
    s: Seq<char>,
    c: Cursor,
    q: int,
    ns: Seq<Node>,
    depth: nat,
    ic: bool,
    acc: Seq<Node>,
)
    requires
        cursor_ok(s, c),
        c.pos <= q,
        forall|i: int| c.pos <= i < q ==> (#[trigger] s[i] == ' ' || s[i] == '\n'),
        at(s, q, nodes_txt(ns, depth)),
        ns.len() > 0,
    ensures
        ({
            let n0 = ns[0];
            let h = q + indent_text(depth).len();
            let m = h + node_head(n0).len() + node_tail(n0, depth).len();
            let c1 = walk(s, c, h);
            let c4 = walk(s, c1, m);
            &&& cursor_ok(s, c1)
            &&& c1.pos == h
            &&& at(s, h, node_head(n0) + node_tail(n0, depth) + seq!['\n'])
            &&& at(s, m + 1, nodes_txt(ns.drop_first(), depth))
            &&& nodes_txt(ns, depth).len() == indent_text(depth).len() + node_head(n0).len()
                + node_tail(n0, depth).len() + 1 + nodes_txt(ns.drop_first(), depth).len()
            &&& (read_node(s, c1) == Ok::<(Option<Node>, Cursor), KdlError>((Some(n0), c4)) && cursor_ok(
                s,
                c4,
            ) && c4.pos == m) ==> read_nodes(s, c, ic, acc) == read_nodes(s, step(s, c4), ic, acc.push(n0))
                && cursor_ok(s, step(s, c4)) && step(s, c4) == walk(s, c, m + 1)
        }),
{
    let n0 = ns[0];
    let rest = ns.drop_first();
    let ind = indent_text(depth);
    let body = node_head(n0) + node_tail(n0, depth) + seq!['\n'];
    let nt = node_txt(n0, depth);
    assert(nt =~= ind + body);
    assert(nodes_txt(ns, depth) == nt + nodes_txt(rest, depth));
    lemma_at_split(s, q, nt, nodes_txt(rest, depth));
    lemma_at_split(s, q, ind, body);
    lemma_indent(depth);
    lemma_blank_at(s, q, ind);
    let h = q + ind.len();
    let m = h + node_head(n0).len() + node_tail(n0, depth).len();
    lemma_ident_first(n0.name);
    assert(identifier_char('0'));
    if n0.ty is Some {
        assert(body[0] == '(');
    } else {
        assert(body[0] == ident_text(n0.name)[0]);
    }
    lemma_at_char(s, h, body, 0);
    lemma_read_line_space(s, c, h);
    let c1 = walk(s, c, h);
    lemma_read_line_space(s, c1, h);
    lemma_walk_zero(s, c1);
    lemma_at_char(s, h, body, body.len() - 1);
    assert(body[body.len() - 1] == '\n');
    let c4 = walk(s, c1, m);
    if read_node(s, c1) == Ok::<(Option<Node>, Cursor), KdlError>((Some(n0), c4)) && cursor_ok(s, c4)
        && c4.pos == m {
        lemma_step(s, c4);
        assert(newline_step(s, c4) == step(s, c4));
        lemma_read_nodes_step(s, c, ic, acc, c1, n0, c4);
        lemma_walk_trans(s, c, h, m);
        lemma_walk_trans(s, c, m, m + 1);
    }
}

/// The entries of a node from the `i`-th on, then its block of children
/// and the line feed after it, read as what the node holds.
proof fn lemma_entries_at(s: Seq<char>, c: Cursor, n: Node, depth: nat, i: int)
    requires
        cursor_ok(s, c),
        toks_node(n),
        blocks_node(n),
        0 <= i <= n.entries.len(),
        at(s, c.pos, entries_rest(n, depth, i)),
    ensures
        ({
            let end = c.pos + entries_txt(n.entries.skip(i)).len() + node_tail(n, depth).len();
            &&& read_entries(s, c, n.ty, n.name, n.entries.take(i)) == Ok::<(Node, Cursor), KdlError>(
                (n, walk(s, c, end)),
            )
            &&& cursor_ok(s, walk(s, c, end))
            &&& walk(s, c, end).pos == end
        }),
    decreases n, 1nat, n.entries.len() - i,
{
    let p = c.pos;
    let end = p + entries_txt(n.entries.skip(i)).len() + node_tail(n, depth).len();
    lemma_walk(s, c, end);
    if i < n.entries.len() {
        lemma_entries_next(s, c, n, depth, i);
        let c3 = walk(s, c, p + 1 + entry_txt(n.entries[i]).len());
        lemma_entries_at(s, c3, n, depth, i + 1);
        lemma_walk_trans(s, c, c3.pos, end);
    } else {
        assert(n.entries.take(i) =~= n.entries);
        match n.children {
            None => {
                lemma_entries_none(s, c, n, depth);
                lemma_walk_zero(s, c);
            },
            Some(kids) => {
                lemma_kids_open(s, c, n, depth);
                let kt = nodes_txt(kids, depth + 1);
                let f = p + 3 + kt.len() + indent_text(depth).len();
                let c3 = walk(s, c, p + 2);
                lemma_nodes_at(s, c3, p + 3, kids, depth + 1, true, Seq::empty());
                assert(Seq::<Node>::empty() + kids =~= kids);
                lemma_walk_trans(s, c, p + 2, f);
                lemma_kids_close(s, c, n, depth, f);
            },
        }
    }
}

/// A node's type annotation, name, entries and block of children, with the
/// line feed after them, read as the node.
proof fn lemma_node_at_ok(s: Seq<char>, c: Cursor, n: Node, depth: nat)
    requires
        cursor_ok(s, c),
        toks_node(n),
        blocks_node(n),
        at(s, c.pos, node_head(n) + node_tail(n, depth) + seq!['\n']),
    ensures
        ({
            let end = c.pos + node_head(n).len() + node_tail(n, depth).len();
            &&& read_node(s, c) == Ok::<(Option<Node>, Cursor), KdlError>((Some(n), walk(s, c, end)))
            &&& cursor_ok(s, walk(s, c, end))
            &&& walk(s, c, end).pos == end
        }),
    decreases n, 2nat, 0int,
{
    let p = c.pos;
    let end = p + node_head(n).len() + node_tail(n, depth).len();
    lemma_walk(s, c, end);
    lemma_node_open(s, c, n, depth);
    let p2 = p + ty_txt(n.ty).len() + ident_text(n.name).len();
    let c3 = walk(s, c, p2);
    assert(n.entries.take(0) =~= Seq::<Entry>::empty());
    lemma_entries_at(s, c3, n, depth, 0);
    lemma_walk_trans(s, c, p2, end);
}

/// Nodes as the writer writes them, after blank space from the cursor to
/// `q`, and then the end of the text or, in a block of children, the
/// indentation and `}` that close it, read as the nodes.
proof fn lemma_nodes_at(
    s: Seq<char>,
    c: Cursor,
    q: int,
    ns: Seq<Node>,
    depth: nat,
    ic: bool,
    acc: Seq<Node>,
)
    requires
        cursor_ok(s, c),
        c.pos <= q,
        forall|i: int| c.pos <= i < q ==> (#[trigger] s[i] == ' ' || s[i] == '\n'),
        at(s, q, nodes_txt(ns, depth)),
        toks_nodes(ns),
        blocks_nodes(ns),
        ic ==> depth >= 1 && at(
            s,
            q + nodes_txt(ns, depth).len(),
            indent_text((depth - 1) as nat) + seq!['}'],
        ),
        !ic ==> q + nodes_txt(ns, depth).len() == s.len(),
    ensures
        ({
            let e = q + nodes_txt(ns, depth).len();
            let f = if ic {
                e + indent_text((depth - 1) as nat).len()
            } else {
                e
            };
            &&& read_nodes(s, c, ic, acc) == Ok::<(Seq<Node>, Cursor), KdlError>(
                (acc + ns, walk(s, c, f)),
            )
            &&& cursor_ok(s, walk(s, c, f))
            &&& walk(s, c, f).pos == f
        }),
    decreases ns, 0nat, 0int,
{
    let e = q + nodes_txt(ns, depth).len();
    if ns.len() == 0 {
        assert(acc + ns =~= acc);
        lemma_nodes_last(s, c, q, depth, ic, acc);
    } else {
        let n0 = ns[0];
        lemma_nodes_first(s, c, q, ns, depth, ic, acc);
        let h = q + indent_text(depth).len();
        let m = h + node_head(n0).len() + node_tail(n0, depth).len();
        let c1 = walk(s, c, h);
        lemma_node_at_ok(s, c1, n0, depth);
        let c5 = walk(s, c, m + 1);
        lemma_nodes_at(s, c5, m + 1, ns.drop_first(), depth, ic, acc.push(n0));
        assert(acc.push(n0) + ns.drop_first() =~= acc + ns);
        let f = if ic {
            e + indent_text((depth - 1) as nat).len()
        } else {
            e
        };
        lemma_walk(s, c, m + 1);
        lemma_walk_trans(s, c, m + 1, f);
    }
}

/// Nodes as the writer writes them, holding numbers as the model holds
/// them and no empty block of children, read back as a document give the
/// nodes.
proof fn lemma_document_of_text(ns: Seq<Node>)
    requires
        toks_nodes(ns),
        blocks_nodes(ns),
    ensures
        kdl_document(nodes_txt(ns, 0)) == Ok::<Seq<Node>, KdlError>(ns),
{
    let t = nodes_txt(ns, 0);
    let c0 = Cursor { pos: 0, line: 1, col: 1 };
    assert(cursor_ok(t, c0));
    assert(at(t, 0, t)) by {
        assert(t.subrange(0, t.len() as int) =~= t);
    }
    if ns.len() > 0 {
        let n0 = ns[0];
        let body = node_head(n0) + node_tail(n0, 0) + seq!['\n'];
        assert(indent_text(0) =~= Seq::<char>::empty());
        assert(node_txt(n0, 0) =~= body);
        assert(t == node_txt(n0, 0) + nodes_txt(ns.drop_first(), 0));
        lemma_ident_first(n0.name);
        assert(super::scan::disallowed('\u{FEFF}'));
        if n0.ty is Some {
            assert(body[0] == '(');
        } else {
            assert(body[0] == ident_text(n0.name)[0]);
        }
        assert(t[0] == body[0]);
        assert(char_at(t, 0) != Some('\u{FEFF}'));
        assert(char_at(t, 0) != Some('/'));
    }
    assert(document_start(t) == c0);
    lemma_nodes_at(t, c0, 0, ns, 0, false, Seq::empty());
    assert(Seq::<Node>::empty() + ns =~= ns);
    reveal(read_nodes);
    let c = walk(t, c0, t.len() as int);
    lemma_lsp(t, c, t.len() as int);
    lemma_walk_zero(t, c);
}

// ---- what reading gives: numbers as the model holds them ----

proof fn lemma_num_val_ok(s: Seq<char>, c: Cursor)
    ensures
        num_val(s, c) matches Ok((Some(v), _)) ==> val_ok(v),
{
    if scan_number(s, c.pos) is Number {
        assert(char_at(s, c.pos) is Some);
        let end = scan_number(s, c.pos)->end;
        lemma_scan_pos(s, c.pos);
        let n = end - c.pos;
        let raw = s.subrange(c.pos, end);
        assert(end <= s.len()) by {
            lemma_scan_end(s, c.pos);
        }
        assert(raw.subrange(0, n) =~= raw);
        lemma_scan_win(s, c.pos, raw, 0, n);
    }
}

/// A number ends within the text, before a character that may follow it.
proof fn lemma_scan_end(s: Seq<char>, p: int)
    requires
        scan_number(s, p) is Number,
        0 <= p,
    ensures
        scan_number(s, p)->end <= s.len(),
        num_stop(s, scan_number(s, p)->end, true),
{
    let ch = s[p];
    let q = if ch == '+' || ch == '-' { p + 1 } else { p };
    let r = prefix_letter_radix(char_at(s, q + 1));
    if s[q] == '0' && r != 0 {
        lemma_radix_end_le(s, q + 3, r);
    } else {
        let i1 = int_end(s, q);
        lemma_int_end_le(s, q);
        let has_dot = char_at(s, i1) == Some('.');
        lemma_int_end_le(s, i1 + 1);
        let i2 = if has_dot { int_end(s, i1 + 1) } else { i1 };
        let j = if char_at(s, i2 + 1) == Some('+') || char_at(s, i2 + 1) == Some('-') {
            i2 + 2
        } else {
            i2 + 1
        };
        lemma_int_end_le(s, j);
    }
}

proof fn lemma_int_end_le(s: Seq<char>, p: int)
    ensures
        p <= s.len() ==> int_end(s, p) <= s.len(),
    decreases s.len() - p,
{
    if 0 <= p < s.len() && (ascii_digit(s[p]) || s[p] == '_') {
        lemma_int_end_le(s, p + 1);
    }
}

proof fn lemma_radix_end_le(s: Seq<char>, p: int, radix: nat)
    ensures
        p <= s.len() ==> radix_end(s, p, radix) <= s.len(),
    decreases s.len() - p,
{
    if 0 <= p < s.len() && (radix_digit(s[p], radix) || s[p] == '_') {
        lemma_radix_end_le(s, p + 1, radix);
    }
}

proof fn lemma_kwnum_ok(s: Seq<char>, c: Cursor)
    ensures
        kwnum_val(s, c) matches Some((v, _)) ==> val_ok(v),
{
    if keyword_number_end(s, c.pos) is Some {
        assert(char_at(s, c.pos) is Some);
        let end = keyword_number_end(s, c.pos)->0;
        let raw = s.subrange(c.pos, end);
        assert(raw[0] == s[c.pos]);
        assert(raw[1] == s[c.pos + 1]);
        assert(raw[2] == s[c.pos + 2]);
        assert(raw[3] == s[c.pos + 3]);
        if end - c.pos > 4 {
            assert(raw[4] == s[c.pos + 4]);
        }
        assert(keyword_number_end(raw, 0) == Some(raw.len() as int));
    }
}

proof fn lemma_value_ok(s: Seq<char>, c: Cursor)
    ensures
        value_at(s, c) matches Ok((v, _)) ==> val_ok(v),
{
    lemma_kwnum_ok(s, c);
    lemma_num_val_ok(s, c);
}

proof fn lemma_key_or_arg_ok(s: Seq<char>, ty: Option<Seq<char>>, text: Seq<char>, c3: Cursor)
    ensures
        key_or_arg(s, ty, text, c3) matches Ok((Some(e), _)) ==> entry_ok(e),
{
    if let Ok(c4) = wsp(s, c3) {
        if let Ok(c5) = wsp(s, adv(s, c4)) {
            if let Ok((vt, c6)) = type_ann(s, c5) {
                if vt is Some {
                    if let Ok((c7, _)) = nsp(s, c6) {
                        lemma_value_ok(s, c7);
                    }
                } else {
                    lemma_value_ok(s, c6);
                }
            }
        }
    }
}

proof fn lemma_entry_ok(s: Seq<char>, c: Cursor)
    ensures
        entry_at(s, c) matches Ok((Some(e), _)) ==> entry_ok(e),
{
    if let Ok((ty, c1)) = type_ann(s, c) {
        let c2 = if ty is Some {
            match nsp(s, c1) {
                Ok((d, _)) => d,
                Err(_) => c1,
            }
        } else {
            c1
        };
        lemma_body_ok(s, ty, c2);
        lemma_body_ok(s, ty, c1);
    }
}

proof fn lemma_body_ok(s: Seq<char>, ty: Option<Seq<char>>, c: Cursor)
    ensures
        entry_body(s, ty, c) matches Ok((Some(e), _)) ==> entry_ok(e),
{
    lemma_kwnum_ok(s, c);
    lemma_num_val_ok(s, c);
    if let Ok((Some(t), c3)) = str_at(s, c) {
        lemma_key_or_arg_ok(s, ty, t, c3);
    }
}

proof fn lemma_toks_push(acc: Seq<Node>, n: Node)
    requires
        toks_nodes(acc),
        toks_node(n),
    ensures
        toks_nodes(acc.push(n)),
    decreases acc.len(),
{
    let a = acc.push(n);
    if acc.len() == 0 {
        assert(a.drop_first() =~= Seq::<Node>::empty());
        assert(toks_nodes(a.drop_first()));
        assert(a[0] == n);
    } else {
        assert(a[0] == acc[0]);
        assert(a.drop_first() =~= acc.drop_first().push(n));
        lemma_toks_push(acc.drop_first(), n);
    }
    assert(toks_nodes(a) == (a.len() == 0 || (toks_node(a[0]) && toks_nodes(a.drop_first()))));
}

proof fn lemma_a_entries(
    s: Seq<char>,
    c: Cursor,
    ty: Option<Seq<char>>,
    name: Seq<char>,
    es: Seq<Entry>,
)
    requires
        forall|i: int| 0 <= i < es.len() ==> entry_ok(#[trigger] es[i]),
    ensures
        entries_from(s, c, ty, name, es) matches Ok((n, _)) ==> toks_node(n),
    decreases s.len() - c.pos, 0nat,
{
    if let Ok((c1, had)) = nsp(s, c) {
        if let Ok((c2, sd)) = entry_sd(s, c1) {
            if char_at(s, c2.pos) == Some('{') {
                let c3 = adv(s, c2);
                if c.pos < c3.pos <= s.len() {
                    lemma_a_nodes(s, c3, true, Seq::empty());
                    if let Ok((kids, c4)) = nodes_from(s, c3, true, Seq::empty()) {
                        if let Ok(c5) = expect_at(s, c4, '}') {
                            if c.pos < c5.pos <= s.len() && sd {
                                if let Ok((c6, _)) = nsp(s, c5) {
                                    if c.pos < c6.pos <= s.len() {
                                        lemma_a_entries(s, c6, ty, name, es);
                                    }
                                }
                            }
                        }
                    }
                }
            } else {
                lemma_entry_ok(s, c2);
                if let Ok((Some(en), c3)) = entry_at(s, c2) {
                    if c.pos < c3.pos <= s.len() {
                        let es2 = if sd {
                            es
                        } else {
                            es.push(en)
                        };
                        assert forall|i: int| 0 <= i < es2.len() implies entry_ok(
                            #[trigger] es2[i],
                        ) by {
                            if !sd && i == es.len() {
                                assert(es2[i] == en);
                            } else {
                                assert(es2[i] == es[i]);
                            }
                        }
                        lemma_a_entries(s, c3, ty, name, es2);
                    }
                }
            }
        }
    }
}

proof fn lemma_a_node(s: Seq<char>, c: Cursor)
    ensures
        node_at(s, c) matches Ok((Some(n), _)) ==> toks_node(n),
    decreases s.len() - c.pos, 1nat,
{
    if let Ok((ty, c1)) = type_ann(s, c) {
        let c2 = if ty is Some {
            match nsp(s, c1) {
                Ok((d, _)) => d,
                Err(_) => c1,
            }
        } else {
            c1
        };
        if let Ok((Some(name), c3)) = str_at(s, c2) {
            if c.pos <= c3.pos <= s.len() {
                lemma_a_entries(s, c3, ty, name, Seq::empty());
            }
        }
    }
}

proof fn lemma_a_nodes(s: Seq<char>, c: Cursor, ic: bool, acc: Seq<Node>)
    requires
        toks_nodes(acc),
    ensures
        nodes_from(s, c, ic, acc) matches Ok((ns, _)) ==> toks_nodes(ns),
    decreases s.len() - c.pos, 2nat,
{
    if let Ok(c1) = lsp(s, c) {
        if let Ok((c2, sd)) = slashdash(s, c1) {
            if let Ok(c3) = lsp(s, c2) {
                if c.pos <= c3.pos <= s.len() {
                    lemma_a_node(s, c3);
                    if let Ok((Some(n), c4)) = node_at(s, c3) {
                        let c5r = if !ic || char_at(s, c4.pos) != Some('}') {
                            match node_terminator(s, c4, ic) {
                                Ok(d) => Ok::<Cursor, KdlError>(d),
                                Err(ch) => Err(
                                    super::scan::error_at(
                                        c4,
                                        super::value::KdlErrorKind::UnexpectedChar(ch),
                                    ),
                                ),
                            }
                        } else {
                            Ok(c4)
                        };
                        if let Ok(c5) = c5r {
                            if c.pos < c5.pos <= s.len() {
                                if !sd {
                                    lemma_toks_push(acc, n);
                                }
                                let acc2 = if sd {
                                    acc
                                } else {
                                    acc.push(n)
                                };
                                lemma_a_nodes(s, c5, ic, acc2);
                            }
                        }
                    }
                }
            }
        }
    }
}

// ---- the writer's text of a document and of its model ----

proof fn lemma_nodes_txt_push(ns: Seq<Node>, n: Node, d: nat)
    ensures
        nodes_txt(ns.push(n), d) == nodes_txt(ns, d) + node_txt(n, d),
    decreases ns.len(),
{
    let a = ns.push(n);
    if ns.len() == 0 {
        assert(a.drop_first() =~= Seq::<Node>::empty());
        assert(a[0] == n);
        assert(nodes_txt(a, d) =~= node_txt(n, d) + nodes_txt(Seq::<Node>::empty(), d));
        assert(nodes_txt(a, d) =~= nodes_txt(ns, d) + node_txt(n, d));
    } else {
        assert(a[0] == ns[0]);
        assert(a.drop_first() =~= ns.drop_first().push(n));
        lemma_nodes_txt_push(ns.drop_first(), n, d);
        assert(nodes_txt(a, d) =~= nodes_txt(ns, d) + node_txt(n, d));
    }
}

proof fn lemma_entries_txt_push(es: Seq<Entry>, e: Entry)
    ensures
        entries_txt(es.push(e)) == entries_txt(es) + seq![' '] + entry_txt(e),
    decreases es.len(),
{
    let a = es.push(e);
    if es.len() == 0 {
        assert(a.drop_first() =~= Seq::<Entry>::empty());
        assert(entries_txt(a.drop_first()) == Seq::<char>::empty());
        assert(entries_txt(es) == Seq::<char>::empty());
        assert(a[0] == e);
        assert(entries_txt(a) == seq![' '] + entry_txt(e) + entries_txt(a.drop_first()));
        assert(entries_txt(a) =~= entries_txt(es) + seq![' '] + entry_txt(e));
    } else {
        assert(a[0] == es[0]);
        assert(a.drop_first() =~= es.drop_first().push(e));
        lemma_entries_txt_push(es.drop_first(), e);
        assert(entries_txt(a) =~= entries_txt(es) + seq![' '] + entry_txt(e));
    }
}

proof fn lemma_bridge_entries(es: Seq<KdlEntry>)
    ensures
        plain_entries_text(es) == entries_txt(entries_view(es)),
    decreases es.len(),
{
    if es.len() > 0 {
        let init = es.drop_last();
        lemma_bridge_entries(init);
        assert(entries_view(es) =~= entries_view(init).push(entry_view(es.last())));
        lemma_entries_txt_push(entries_view(init), entry_view(es.last()));
        assert(plain_entry_text(es.last()) == entry_txt(entry_view(es.last())));
    } else {
        assert(entries_view(es) =~= Seq::<Entry>::empty());
    }
}

proof fn lemma_bridge_node(k: KdlNode, d: nat)
    ensures
        plain_node_text(k, d) == node_txt(node_view(&k), d),
    decreases k, 1nat,
{
    let n = node_view(&k);
    lemma_bridge_entries(k.entries@);
    assert(ty_text(k.ty) == ty_txt(n.ty));
    match k.children {
        Some(c) => {
            lemma_bridge_nodes(c@, d + 1);
            lemma_nodes_view(c@);
            if c@.len() > 0 {
                assert(plain_node_text(k, d) =~= node_txt(n, d));
            } else {
                assert(plain_node_text(k, d) =~= node_txt(n, d));
            }
        },
        None => {
            assert(plain_node_text(k, d) =~= node_txt(n, d));
        },
    }
}

proof fn lemma_bridge_nodes(ks: Seq<KdlNode>, d: nat)
    ensures
        plain_nodes_text(ks, d) == nodes_txt(nodes_view(ks), d),
    decreases ks, 0nat,
{
    if ks.len() > 0 {
        let init = ks.drop_last();
        lemma_bridge_nodes(init, d);
        lemma_bridge_node(ks.last(), d);
        lemma_nodes_txt_push(nodes_view(init), node_view(&ks.last()), d);
    } else {
        assert(nodes_view(ks) =~= Seq::<Node>::empty());
    }
}

/// What reading a document gives holds numbers as the model holds them.
proof fn lemma_document_toks(t: Seq<char>)
    ensures
        kdl_document(t) matches Ok(ns) ==> toks_nodes(ns),
{
    assert(toks_nodes(Seq::<Node>::empty()));
    lemma_a_nodes(t, document_start(t), false, Seq::empty());
}

/// No block of children in the nodes, or below them, is empty.
pub open spec fn no_empty_blocks(ns: Seq<Node>) -> bool {
    blocks_nodes(ns)
}

/// Reading back what is written: for a document read from some text, its
/// plain text (as `serialize` writes it) read as a document gives the
/// same nodes. An empty block of children (`a {}`) is written as nothing
/// and reads back as no block, so such documents are left out.
pub proof fn law_document_round_trip(t: Seq<char>, doc: KdlDocument)
    requires
        kdl_document(t) == Ok::<Seq<Node>, KdlError>(nodes_view(doc.nodes@)),
        no_empty_blocks(nodes_view(doc.nodes@)),
    ensures
        kdl_document(plain_nodes_text(doc.nodes@, 0)) == Ok::<Seq<Node>, KdlError>(
            nodes_view(doc.nodes@),
        ),
{
    lemma_document_toks(t);
    lemma_document_of_text(nodes_view(doc.nodes@));
    lemma_bridge_nodes(doc.nodes@, 0);
}

} // verus!
