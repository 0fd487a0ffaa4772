//! KDL text of a document as it stands: nodes, entries and children in
//! their order, numbers as written, strings quoted, names bare where they
//! can be.
use vstd::prelude::*;
use super::normalize::{indent_text, ty_text};
use super::quote::{ident_text, quoted, write_identifier_or_string, write_quoted_string};
use super::value::{KdlDocument, KdlEntry, KdlNode, KdlValue};

verus! {

/// The text of a value: a string quoted, a number as written.
pub open spec fn plain_value_text(v: KdlValue) -> Seq<char> {
    match v {
        KdlValue::String(s) => quoted(s@),
        KdlValue::Number(n) => n.raw@,
        KdlValue::Bool(b) => if b {
            seq!['#', 't', 'r', 'u', 'e']
        } else {
            seq!['#', 'f', 'a', 'l', 's', 'e']
        },
        KdlValue::Null => seq!['#', 'n', 'u', 'l', 'l'],
    }
}

/// The text of an entry.
pub open spec fn plain_entry_text(e: KdlEntry) -> Seq<char> {
    match e {
        KdlEntry::Argument { ty, value } => ty_text(ty) + plain_value_text(value),
        KdlEntry::Property { key, ty, value } => ident_text(key@) + seq!['='] + ty_text(ty)
            + plain_value_text(value),
    }
}

/// Entries in order, each after a space.
pub open spec fn plain_entries_text(entries: Seq<KdlEntry>) -> Seq<char>
    decreases entries.len(),
{
    if entries.len() == 0 {
        Seq::empty()
    } else {
        plain_entries_text(entries.drop_last()) + seq![' '] + plain_entry_text(entries.last())
    }
}

/// The text of a node at nesting `depth`.
pub open spec fn plain_node_text(n: KdlNode, depth: nat) -> Seq<char>
    decreases n,
{
    indent_text(depth) + ty_text(n.ty) + ident_text(n.name@) + plain_entries_text(n.entries@)
        + match n.children {
        Some(c) => if c@.len() > 0 {
            seq![' ', '{', '\n'] + plain_nodes_text(c@, depth + 1) + indent_text(depth) + seq![
                '}',
                '\n',
            ]
        } else {
            seq!['\n']
        },
        None => seq!['\n'],
    }
}

/// The texts of nodes, one after the other.
pub open spec fn plain_nodes_text(nodes: Seq<KdlNode>, depth: nat) -> Seq<char>
    decreases nodes,
{
    if nodes.len() == 0 {
        Seq::empty()
    } else {
        plain_nodes_text(nodes.drop_last(), depth) + plain_node_text(nodes.last(), depth)
    }
}

fn write_type_annotation(out: &mut String, ty: &Option<String>)
    ensures
        final(out)@ == old(out)@ + ty_text(*ty),
{
    match ty {
        Some(t) => {
            out.push('(');
            write_identifier_or_string(out, t.as_str());
            out.push(')');
            proof {
                assert(out@ =~= old(out)@ + ty_text(*ty));
            }
        },
        None => {
            proof {
                assert(out@ =~= old(out)@ + ty_text(*ty));
            }
        },
    }
}

fn write_value(out: &mut String, value: &KdlValue)
    ensures
        final(out)@ == old(out)@ + plain_value_text(*value),
{
    let ghost start = out@;
    match value {
        KdlValue::String(s) => write_quoted_string(out, s.as_str()),
        KdlValue::Number(n) => out.push_str(n.raw.as_str()),
        KdlValue::Bool(b) => {
            out.push('#');
            if *b {
                out.push('t');
                out.push('r');
                out.push('u');
                out.push('e');
            } else {
                out.push('f');
                out.push('a');
                out.push('l');
                out.push('s');
                out.push('e');
            }
        },
        KdlValue::Null => {
            out.push('#');
            out.push('n');
            out.push('u');
            out.push('l');
            out.push('l');
        },
    }
    proof {
        assert(out@ =~= start + plain_value_text(*value));
    }
}

fn write_entry(out: &mut String, entry: &KdlEntry)
    ensures
        final(out)@ == old(out)@ + plain_entry_text(*entry),
{
    let ghost start = out@;
    match entry {
        KdlEntry::Argument { ty, value } => {
            write_type_annotation(out, ty);
            write_value(out, value);
        },
        KdlEntry::Property { key, ty, value } => {
            write_identifier_or_string(out, key.as_str());
            out.push('=');
            write_type_annotation(out, ty);
            write_value(out, value);
        },
    }
    proof {
        assert(out@ =~= start + plain_entry_text(*entry));
    }
}

fn write_entries(out: &mut String, es: &Vec<KdlEntry>)
    ensures
        final(out)@ == old(out)@ + plain_entries_text(es@),
{
    let ghost head = out@;
    let mut i: usize = 0;
    proof {
        assert(es@.take(0) =~= Seq::<KdlEntry>::empty());
        assert(out@ =~= head + plain_entries_text(es@.take(0)));
    }
    while i < es.len()
        invariant
            0 <= i <= es@.len(),
            out@ == head + plain_entries_text(es@.take(i as int)),
        decreases es@.len() - i,
    {
        proof {
            assert(es@.take(i + 1).drop_last() =~= es@.take(i as int));
            assert(es@.take(i + 1).last() == es@[i as int]);
        }
        out.push(' ');
        write_entry(out, &es[i]);
        proof {
            assert(out@ =~= head + plain_entries_text(es@.take(i + 1)));
        }
        i = i + 1;
    }
    proof {
        assert(es@.take(es@.len() as int) =~= es@);
    }
}

fn write_node(out: &mut String, node: &KdlNode, indent: &String, Ghost(depth): Ghost<nat>)
    requires
        indent@ == indent_text(depth),
    ensures
        final(out)@ == old(out)@ + plain_node_text(*node, depth),
    decreases node,
{
    let ghost start = out@;
    out.push_str(indent.as_str());
    write_type_annotation(out, &node.ty);
    write_identifier_or_string(out, node.name.as_str());
    write_entries(out, &node.entries);
    match &node.children {
        Some(children) => {
            if children.len() > 0 {
                out.push(' ');
                out.push('{');
                out.push('\n');
                let mut child_indent = indent.clone();
                child_indent.push(' ');
                child_indent.push(' ');
                child_indent.push(' ');
                child_indent.push(' ');
                proof {
                    assert(child_indent@ =~= indent_text(depth + 1));
                    assert(decreases_to!(node => node.children));
                }
                write_nodes(out, children, &child_indent, Ghost(depth + 1));
                out.push_str(indent.as_str());
                out.push('}');
                out.push('\n');
            } else {
                out.push('\n');
            }
        },
        None => {
            out.push('\n');
        },
    }
    proof {
        assert(out@ =~= start + plain_node_text(*node, depth));
    }
}

fn write_nodes(out: &mut String, nodes: &Vec<KdlNode>, indent: &String, Ghost(depth): Ghost<nat>)
    requires
        indent@ == indent_text(depth),
    ensures
        final(out)@ == old(out)@ + plain_nodes_text(nodes@, depth),
    decreases nodes,
{
    let ghost start = out@;
    let mut i: usize = 0;
    proof {
        assert(nodes@.take(0) =~= Seq::<KdlNode>::empty());
        assert(out@ =~= start + plain_nodes_text(nodes@.take(0), depth));
    }
    while i < nodes.len()
        invariant
            indent@ == indent_text(depth),
            0 <= i <= nodes@.len(),
            out@ == start + plain_nodes_text(nodes@.take(i as int), depth),
        decreases nodes@.len() - i,
    {
        proof {
            assert(nodes@.take(i + 1).drop_last() =~= nodes@.take(i as int));
            assert(nodes@.take(i + 1).last() == nodes@[i as int]);
            assert(decreases_to!(nodes => nodes@[i as int]));
        }
        write_node(out, &nodes[i], indent, Ghost(depth));
        proof {
            assert(out@ =~= start + plain_nodes_text(nodes@.take(i + 1), depth));
        }
        i = i + 1;
    }
    proof {
        assert(nodes@.take(nodes@.len() as int) =~= nodes@);
    }
}

/// The KDL text of a document: each node on its own line, children indented
/// by four spaces per level.
pub fn serialize(doc: &KdlDocument) -> (r: String)
    ensures
        r@ == plain_nodes_text(doc.nodes@, 0),
{
    let mut out = String::new();
    let indent = String::new();
    write_nodes(&mut out, &doc.nodes, &indent, Ghost(0));
    out
}

impl KdlDocument {
    /// The KDL text of the document, as `serialize` writes it.
    pub fn to_kdl_string(&self) -> (r: String)
        ensures
            r@ == plain_nodes_text(self.nodes@, 0),
    {
        serialize(self)
    }
}

impl KdlNode {
    /// The KDL text of the node and its children, at the outermost level.
    pub fn to_kdl_string(&self) -> (r: String)
        ensures
            r@ == plain_node_text(*self, 0),
    {
        let mut out = String::new();
        let indent = String::new();
        write_node(&mut out, self, &indent, Ghost(0));
        out
    }
}

impl KdlEntry {
    /// The KDL text of the entry.
    pub fn to_kdl_string(&self) -> (r: String)
        ensures
            r@ == plain_entry_text(*self),
    {
        let mut out = String::new();
        write_entry(&mut out, self);
        out
    }
}

impl KdlValue {
    /// The KDL text of the value.
    pub fn to_kdl_string(&self) -> (r: String)
        ensures
            r@ == plain_value_text(*self),
    {
        let mut out = String::new();
        write_value(&mut out, self);
        out
    }
}

} // verus!
