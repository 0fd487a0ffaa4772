//! The normalised text of a KDL document: comments gone, properties in key
//! order with only the last of each key, strings bare where they can be and
//! quoted otherwise, numbers in normal form, four spaces of indentation per
//! level, and a final newline.
use vstd::prelude::*;
use crate::text::{str_chars, str_eq};
use super::number_form::{normal_number, normalize_number, number_raw_ok};
use super::quote::{ident_text, write_identifier_or_string};
use super::value::{KdlDocument, KdlEntry, KdlNode, KdlValue};

verus! {

/// Four spaces per level.
pub open spec fn indent_text(depth: nat) -> Seq<char>
    decreases depth,
{
    if depth == 0 {
        Seq::empty()
    } else {
        indent_text((depth - 1) as nat) + seq![' ', ' ', ' ', ' ']
    }
}

/// A type annotation `(T)`, or nothing.
pub open spec fn ty_text(ty: Option<String>) -> Seq<char> {
    match ty {
        Some(t) => seq!['('] + ident_text(t@) + seq![')'],
        None => Seq::empty(),
    }
}

/// The normalised text of a value.
pub open spec fn value_text(v: KdlValue) -> Seq<char> {
    match v {
        KdlValue::String(s) => ident_text(s@),
        KdlValue::Number(n) => normal_number(n.raw@),
        KdlValue::Bool(b) => if b {
            seq!['#', 't', 'r', 'u', 'e']
        } else {
            seq!['#', 'f', 'a', 'l', 's', 'e']
        },
        KdlValue::Null => seq!['#', 'n', 'u', 'l', 'l'],
    }
}

/// The normalised text of an entry.
pub open spec fn entry_text(e: KdlEntry) -> Seq<char> {
    match e {
        KdlEntry::Argument { ty, value } => ty_text(ty) + value_text(value),
        KdlEntry::Property { key, ty, value } => ident_text(key@) + seq!['='] + ty_text(ty)
            + value_text(value),
    }
}

/// The key of a property (nothing for an argument).
pub open spec fn key_of(e: KdlEntry) -> Seq<char> {
    match e {
        KdlEntry::Property { key, .. } => key@,
        _ => Seq::empty(),
    }
}

/// Lexicographic order of texts by code point, the order of `str`.
pub open spec fn text_lt(a: Seq<char>, b: Seq<char>) -> bool
    decreases a.len(),
{
    if a.len() == 0 {
        b.len() > 0
    } else if b.len() == 0 {
        false
    } else if a[0] != b[0] {
        a[0] < b[0]
    } else {
        text_lt(a.drop_first(), b.drop_first())
    }
}

/// Puts property `e` into properties in key order: in place of the one with
/// its key, or where its key falls.
pub open spec fn upsert(acc: Seq<KdlEntry>, e: KdlEntry) -> Seq<KdlEntry>
    decreases acc.len(),
{
    if acc.len() == 0 {
        seq![e]
    } else if key_of(acc[0]) == key_of(e) {
        seq![e] + acc.drop_first()
    } else if text_lt(key_of(e), key_of(acc[0])) {
        seq![e] + acc
    } else {
        seq![acc[0]] + upsert(acc.drop_first(), e)
    }
}

/// The properties among `entries`, one per key (the last written), in key
/// order.
pub open spec fn sorted_props(entries: Seq<KdlEntry>) -> Seq<KdlEntry>
    decreases entries.len(),
{
    if entries.len() == 0 {
        Seq::empty()
    } else if entries.last() is Property {
        upsert(sorted_props(entries.drop_last()), entries.last())
    } else {
        sorted_props(entries.drop_last())
    }
}

/// The arguments among `entries`, in order, each after a space.
pub open spec fn args_text(entries: Seq<KdlEntry>) -> Seq<char>
    decreases entries.len(),
{
    if entries.len() == 0 {
        Seq::empty()
    } else if entries.last() is Argument {
        args_text(entries.drop_last()) + seq![' '] + entry_text(entries.last())
    } else {
        args_text(entries.drop_last())
    }
}

/// Entries, each after a space.
pub open spec fn entries_text(entries: Seq<KdlEntry>) -> Seq<char>
    decreases entries.len(),
{
    if entries.len() == 0 {
        Seq::empty()
    } else {
        entries_text(entries.drop_last()) + seq![' '] + entry_text(entries.last())
    }
}

/// The normalised text of a node at nesting `depth`.
pub open spec fn node_text(n: KdlNode, depth: nat) -> Seq<char>
    decreases n,
{
    indent_text(depth) + ty_text(n.ty) + ident_text(n.name@) + args_text(n.entries@)
        + entries_text(sorted_props(n.entries@)) + match n.children {
        Some(c) => if c@.len() > 0 {
            seq![' ', '{', '\n'] + nodes_text(c@, depth + 1) + indent_text(depth) + seq![
                '}',
                '\n',
            ]
        } else {
            seq!['\n']
        },
        None => seq!['\n'],
    }
}

/// The normalised texts of nodes, one after the other.
pub open spec fn nodes_text(nodes: Seq<KdlNode>, depth: nat) -> Seq<char>
    decreases nodes,
{
    if nodes.len() == 0 {
        Seq::empty()
    } else {
        nodes_text(nodes.drop_last(), depth) + node_text(nodes.last(), depth)
    }
}

/// The normalised text of a document; a lone newline when it has no nodes.
pub open spec fn normalized(doc: KdlDocument) -> Seq<char> {
    if nodes_text(doc.nodes@, 0).len() == 0 {
        seq!['\n']
    } else {
        nodes_text(doc.nodes@, 0)
    }
}

/// The number of an entry can be normalised.
pub open spec fn entry_number_ok(e: KdlEntry) -> bool {
    match e {
        KdlEntry::Argument { value, .. } => value_number_ok(value),
        KdlEntry::Property { value, .. } => value_number_ok(value),
    }
}

pub open spec fn value_number_ok(v: KdlValue) -> bool {
    match v {
        KdlValue::Number(n) => number_raw_ok(n.raw@),
        _ => true,
    }
}

/// Every number in the node and its descendants can be normalised.
pub open spec fn node_numbers_ok(n: KdlNode) -> bool
    decreases n,
{
    (forall|i: int| 0 <= i < n.entries@.len() ==> entry_number_ok(#[trigger] n.entries@[i]))
        && match n.children {
        Some(c) => nodes_numbers_ok(c@),
        None => true,
    }
}

pub open spec fn nodes_numbers_ok(nodes: Seq<KdlNode>) -> bool
    decreases nodes,
{
    if nodes.len() == 0 {
        true
    } else {
        nodes_numbers_ok(nodes.drop_last()) && node_numbers_ok(nodes.last())
    }
}

/// The entries at positions `idx`.
pub open spec fn pick(es: Seq<KdlEntry>, idx: Seq<usize>) -> Seq<KdlEntry> {
    Seq::new(idx.len(), |j: int| es[idx[j] as int])
}

proof fn lemma_text_lt_skip(a: Seq<char>, b: Seq<char>, i: int)
    requires
        0 <= i <= a.len(),
        i <= b.len(),
        forall|j: int| 0 <= j < i ==> a[j] == b[j],
    ensures
        text_lt(a, b) == text_lt(a.skip(i), b.skip(i)),
    decreases i,
{
    if i > 0 {
        assert(a.drop_first().skip(i - 1) =~= a.skip(i));
        assert(b.drop_first().skip(i - 1) =~= b.skip(i));
        lemma_text_lt_skip(a.drop_first(), b.drop_first(), i - 1);
    } else {
        assert(a.skip(0) =~= a);
        assert(b.skip(0) =~= b);
    }
}

/// Whether `a` comes before `b` in the order of `str`.
pub fn text_less(a: &str, b: &str) -> (r: bool)
    ensures
        r == text_lt(a@, b@),
{
    let x = str_chars(a);
    let y = str_chars(b);
    let mut i: usize = 0;
    while i < x.len() && i < y.len() && x[i] == y[i]
        invariant
            x@ == a@,
            y@ == b@,
            0 <= i <= x@.len(),
            i <= y@.len(),
            forall|j: int| 0 <= j < i ==> x@[j] == y@[j],
        decreases x@.len() - i,
    {
        i = i + 1;
    }
    proof {
        lemma_text_lt_skip(a@, b@, i as int);
    }
    if i == x.len() {
        i < y.len()
    } else if i == y.len() {
        false
    } else {
        x[i] < y[i]
    }
}

/// The key of a property.
fn property_key(e: &KdlEntry) -> (r: &str)
    requires
        *e is Property,
    ensures
        r@ == key_of(*e),
{
    match e {
        KdlEntry::Property { key, .. } => key.as_str(),
        KdlEntry::Argument { .. } => {
            proof {
                assert(false);
            }
            ""
        },
    }
}

/// Puts the property at position `k` into the key-ordered positions `idx`.
fn upsert_index(idx: &mut Vec<usize>, es: &Vec<KdlEntry>, k: usize)
    requires
        k < es@.len(),
        es@[k as int] is Property,
        forall|j: int|
            0 <= j < old(idx)@.len() ==> #[trigger] old(idx)@[j] < es@.len()
                && es@[old(idx)@[j] as int] is Property,
    ensures
        forall|j: int|
            0 <= j < final(idx)@.len() ==> #[trigger] final(idx)@[j] < es@.len()
                && es@[final(idx)@[j] as int] is Property,
        pick(es@, final(idx)@) == upsert(pick(es@, old(idx)@), es@[k as int]),
{
    let ghost acc = pick(es@, idx@);
    let ghost e = es@[k as int];
    let key = property_key(&es[k]);
    let mut j: usize = 0;
    proof {
        assert(acc.skip(0) =~= acc);
        assert(acc.take(0) + upsert(acc.skip(0), e) =~= upsert(acc, e));
    }
    while j < idx.len()
        invariant
            k < es@.len(),
            e == es@[k as int],
            e is Property,
            key@ == key_of(e),
            idx@ == old(idx)@,
            acc == pick(es@, idx@),
            forall|i: int|
                0 <= i < idx@.len() ==> #[trigger] idx@[i] < es@.len() && es@[idx@[i] as int] is Property,
            0 <= j <= idx@.len(),
            upsert(acc, e) == acc.take(j as int) + upsert(acc.skip(j as int), e),
        decreases idx@.len() - j,
    {
        let ghost a = acc.skip(j as int);
        proof {
            assert(a[0] == acc[j as int]);
            assert(a.drop_first() =~= acc.skip(j + 1));
            assert(idx@[j as int] < es@.len());
        }
        let other_key = property_key(&es[idx[j]]);
        if str_eq(other_key, key) {
            idx.set(j, k);
            proof {
                assert(pick(es@, idx@) =~= acc.take(j as int) + (seq![e] + a.drop_first()));
            }
            return;
        }
        if text_less(key, other_key) {
            idx.insert(j, k);
            proof {
                assert(pick(es@, idx@) =~= acc.take(j as int) + (seq![e] + a));
            }
            return;
        }
        proof {
            assert(acc.take(j as int) + (seq![a[0]] + upsert(a.drop_first(), e)) =~= acc.take(
                j + 1,
            ) + upsert(acc.skip(j + 1), e));
        }
        j = j + 1;
    }
    idx.push(k);
    proof {
        assert(acc.skip(j as int) =~= Seq::<KdlEntry>::empty());
        assert(acc.take(j as int) =~= acc);
        assert(pick(es@, idx@) =~= acc + seq![e]);
    }
}

/// The positions of the properties of `es`, one per key (the last written),
/// in key order.
fn sorted_prop_indices(es: &Vec<KdlEntry>) -> (idx: Vec<usize>)
    ensures
        forall|j: int|
            0 <= j < idx@.len() ==> #[trigger] idx@[j] < es@.len() && es@[idx@[j] as int] is Property,
        pick(es@, idx@) == sorted_props(es@),
{
    let mut idx: Vec<usize> = Vec::new();
    let mut k: usize = 0;
    proof {
        assert(pick(es@, idx@) =~= sorted_props(es@.take(0)));
    }
    while k < es.len()
        invariant
            0 <= k <= es@.len(),
            forall|j: int|
                0 <= j < idx@.len() ==> #[trigger] idx@[j] < es@.len() && es@[idx@[j] as int] is Property,
            pick(es@, idx@) == sorted_props(es@.take(k as int)),
        decreases es@.len() - k,
    {
        proof {
            assert(es@.take(k + 1).drop_last() =~= es@.take(k as int));
            assert(es@.take(k + 1).last() == es@[k as int]);
        }
        if let KdlEntry::Property { .. } = &es[k] {
            upsert_index(&mut idx, es, k);
        }
        k = k + 1;
    }
    proof {
        assert(es@.take(es@.len() as int) =~= es@);
    }
    idx
}

fn write_type_annotation(out: &mut String, ty: &Option<String>)
    ensures
        final(out)@ == old(out)@ + ty_text(*ty),
{
    match ty {
        Some(t) => {
            out.push('(');
            write_identifier_or_string(out, t.as_str());
            out.push(')');
            proof {
                assert(out@ =~= old(out)@ + ty_text(*ty));
            }
        },
        None => {
            proof {
                assert(out@ =~= old(out)@ + ty_text(*ty));
            }
        },
    }
}

fn write_value(out: &mut String, value: &KdlValue)
    requires
        value_number_ok(*value),
    ensures
        final(out)@ == old(out)@ + value_text(*value),
{
    let ghost start = out@;
    match value {
        KdlValue::String(s) => write_identifier_or_string(out, s.as_str()),
        KdlValue::Number(n) => {
            let t = normalize_number(n);
            out.push_str(t.as_str());
        },
        KdlValue::Bool(b) => {
            out.push('#');
            if *b {
                out.push('t');
                out.push('r');
                out.push('u');
                out.push('e');
            } else {
                out.push('f');
                out.push('a');
                out.push('l');
                out.push('s');
                out.push('e');
            }
        },
        KdlValue::Null => {
            out.push('#');
            out.push('n');
            out.push('u');
            out.push('l');
            out.push('l');
        },
    }
    proof {
        assert(out@ =~= start + value_text(*value));
    }
}

fn write_entry(out: &mut String, entry: &KdlEntry)
    requires
        entry_number_ok(*entry),
    ensures
        final(out)@ == old(out)@ + entry_text(*entry),
{
    let ghost start = out@;
    match entry {
        KdlEntry::Argument { ty, value } => {
            write_type_annotation(out, ty);
            write_value(out, value);
        },
        KdlEntry::Property { key, ty, value } => {
            write_identifier_or_string(out, key.as_str());
            out.push('=');
            write_type_annotation(out, ty);
            write_value(out, value);
        },
    }
    proof {
        assert(out@ =~= start + entry_text(*entry));
    }
}

/// Appends the arguments of `es`, in order, each after a space.
fn write_args(out: &mut String, es: &Vec<KdlEntry>)
    requires
        forall|i: int| 0 <= i < es@.len() ==> entry_number_ok(#[trigger] es@[i]),
    ensures
        final(out)@ == old(out)@ + args_text(es@),
{
    let ghost head = out@;
    let mut i: usize = 0;
    proof {
        assert(es@.take(0) =~= Seq::<KdlEntry>::empty());
        assert(out@ =~= head + args_text(es@.take(0)));
    }
    while i < es.len()
        invariant
            forall|q: int| 0 <= q < es@.len() ==> entry_number_ok(#[trigger] es@[q]),
            0 <= i <= es@.len(),
            out@ == head + args_text(es@.take(i as int)),
        decreases es@.len() - i,
    {
        proof {
            assert(es@.take(i + 1).drop_last() =~= es@.take(i as int));
            assert(es@.take(i + 1).last() == es@[i as int]);
        }
        if let KdlEntry::Argument { .. } = &es[i] {
            out.push(' ');
            write_entry(out, &es[i]);
            proof {
                assert(out@ =~= head + args_text(es@.take(i + 1)));
            }
        }
        i = i + 1;
    }
    proof {
        assert(es@.take(es@.len() as int) =~= es@);
    }
}

/// Appends the properties of `es`, one per key (the last written), in key
/// order, each after a space.
fn write_props(out: &mut String, es: &Vec<KdlEntry>)
    requires
        forall|i: int| 0 <= i < es@.len() ==> entry_number_ok(#[trigger] es@[i]),
    ensures
        final(out)@ == old(out)@ + entries_text(sorted_props(es@)),
{
    let ghost mid = out@;
    let props = sorted_prop_indices(es);
    let ghost ps = pick(es@, props@);
    let mut j: usize = 0;
    proof {
        assert(ps.take(0) =~= Seq::<KdlEntry>::empty());
        assert(out@ =~= mid + entries_text(ps.take(0)));
    }
    while j < props.len()
        invariant
            forall|q: int| 0 <= q < es@.len() ==> entry_number_ok(#[trigger] es@[q]),
            forall|q: int| 0 <= q < props@.len() ==> #[trigger] props@[q] < es@.len(),
            ps == pick(es@, props@),
            0 <= j <= props@.len(),
            out@ == mid + entries_text(ps.take(j as int)),
        decreases props@.len() - j,
    {
        proof {
            assert(ps.take(j + 1).drop_last() =~= ps.take(j as int));
            assert(ps.take(j + 1).last() == es@[props@[j as int] as int]);
            assert(props@[j as int] < es@.len());
        }
        out.push(' ');
        write_entry(out, &es[props[j]]);
        proof {
            assert(out@ =~= mid + entries_text(ps.take(j + 1)));
        }
        j = j + 1;
    }
    proof {
        assert(ps.take(ps.len() as int) =~= ps);
    }
}

#[verifier::rlimit(60)]
fn write_node(out: &mut String, node: &KdlNode, indent: &String, Ghost(depth): Ghost<nat>)
    requires
        indent@ == indent_text(depth),
        node_numbers_ok(*node),
    ensures
        final(out)@ == old(out)@ + node_text(*node, depth),
    decreases node,
{
    let ghost start = out@;
    out.push_str(indent.as_str());
    write_type_annotation(out, &node.ty);
    write_identifier_or_string(out, node.name.as_str());
    write_args(out, &node.entries);
    write_props(out, &node.entries);
    let ghost tail_start = out@;
    match &node.children {
        Some(children) => {
            if children.len() > 0 {
                out.push(' ');
                out.push('{');
                out.push('\n');
                let mut child_indent = indent.clone();
                child_indent.push(' ');
                child_indent.push(' ');
                child_indent.push(' ');
                child_indent.push(' ');
                proof {
                    assert(child_indent@ =~= indent_text(depth + 1));
                    assert(decreases_to!(node => node.children));
                }
                write_children(out, children, &child_indent, Ghost(depth + 1));
                out.push_str(indent.as_str());
                out.push('}');
                out.push('\n');
            } else {
                out.push('\n');
            }
        },
        None => {
            out.push('\n');
        },
    }
    proof {
        assert(out@ =~= start + node_text(*node, depth));
    }
}

fn write_children(
    out: &mut String,
    children: &Vec<KdlNode>,
    indent: &String,
    Ghost(depth): Ghost<nat>,
)
    requires
        indent@ == indent_text(depth),
        nodes_numbers_ok(children@),
    ensures
        final(out)@ == old(out)@ + nodes_text(children@, depth),
    decreases children,
{
    let ghost start = out@;
    let mut i: usize = 0;
    proof {
        assert(children@.take(0) =~= Seq::<KdlNode>::empty());
        assert(out@ =~= start + nodes_text(children@.take(0), depth));
        lemma_nodes_numbers_ok(children@);
    }
    while i < children.len()
        invariant
            indent@ == indent_text(depth),
            forall|q: int| 0 <= q < children@.len() ==> node_numbers_ok(#[trigger] children@[q]),
            0 <= i <= children@.len(),
            out@ == start + nodes_text(children@.take(i as int), depth),
        decreases children@.len() - i,
    {
        proof {
            assert(children@.take(i + 1).drop_last() =~= children@.take(i as int));
            assert(children@.take(i + 1).last() == children@[i as int]);
            assert(decreases_to!(children => children@[i as int]));
        }
        write_node(out, &children[i], indent, Ghost(depth));
        proof {
            assert(out@ =~= start + nodes_text(children@.take(i + 1), depth));
        }
        i = i + 1;
    }
    proof {
        assert(children@.take(children@.len() as int) =~= children@);
    }
}

proof fn lemma_nodes_numbers_ok(nodes: Seq<KdlNode>)
    requires
        nodes_numbers_ok(nodes),
    ensures
        forall|q: int| 0 <= q < nodes.len() ==> node_numbers_ok(#[trigger] nodes[q]),
    decreases nodes.len(),
{
    if nodes.len() > 0 {
        lemma_nodes_numbers_ok(nodes.drop_last());
        assert forall|q: int| 0 <= q < nodes.len() implies node_numbers_ok(#[trigger] nodes[q]) by {
            if q < nodes.len() - 1 {
                assert(nodes.drop_last()[q] == nodes[q]);
            }
        }
    }
}

/// The normalised text of a document.
pub fn normalize(doc: &KdlDocument) -> (r: String)
    requires
        nodes_numbers_ok(doc.nodes@),
    ensures
        r@ == normalized(*doc),
{
    let mut out = String::new();
    let indent = String::new();
    proof {
        assert(indent@ == indent_text(0));
    }
    write_children(&mut out, &doc.nodes, &indent, Ghost(0));
    if out.as_str().is_empty() {
        out.push('\n');
        proof {
            assert(out@ =~= seq!['\n']);
        }
    }
    out
}

} // verus!
