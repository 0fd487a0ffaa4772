//! Building KDL nodes and documents step by step.
use vstd::prelude::*;
use super::number_form::{decimal, push_decimal};
use super::value::{KdlDocument, KdlEntry, KdlNode, KdlNumber, KdlValue};
use crate::text::string_from_chars;

verus! {

/// The decimal text of an integer, with a `-` when it is negative.
pub open spec fn int_text(x: int) -> Seq<char> {
    if x < 0 {
        seq!['-'] + decimal((-x) as nat)
    } else {
        decimal(x as nat)
    }
}

/// The number `value`, written in decimal.
pub fn int_number(value: i64) -> (r: KdlNumber)
    ensures
        r.raw@ == int_text(value as int),
        r.as_i64 == Some(value),
{
    let mut digits: Vec<char> = Vec::new();
    let wide: i128 = value as i128;
    if wide < 0 {
        digits.push('-');
        push_decimal(&mut digits, (-wide) as u128);
    } else {
        push_decimal(&mut digits, wide as u128);
    }
    proof {
        assert(digits@ =~= int_text(value as int));
    }
    let raw = string_from_chars(digits.as_slice(), 0, digits.len());
    proof {
        assert(digits@.subrange(0, digits@.len() as int) =~= digits@);
    }
    KdlNumber { raw, as_i64: Some(value) }
}

/// Builds a `KdlNode` step by step.
#[derive(Debug, Clone)]
pub struct KdlNodeBuilder {
    inner: KdlNode,
}

/// Builds a `KdlDocument` step by step.
#[derive(Debug, Clone)]
pub struct KdlDocumentBuilder {
    inner: KdlDocument,
}

impl KdlNodeBuilder {
    /// The node built so far.
    pub closed spec fn node(&self) -> KdlNode {
        self.inner
    }

    /// A node named `name`, with no type, entries or children.
    pub fn new(name: &str) -> (r: Self)
        ensures
            r.node().name@ == name@,
            r.node().ty is None,
            r.node().entries@.len() == 0,
            r.node().children is None,
    {
        KdlNodeBuilder {
            inner: KdlNode { ty: None, name: name.to_owned(), entries: Vec::new(), children: None },
        }
    }

    /// Sets the type annotation of the node.
    pub fn ty(self, ty: &str) -> (r: Self)
        ensures
            r.node().ty matches Some(t) && t@ == ty@,
            r.node().name == self.node().name,
            r.node().entries == self.node().entries,
            r.node().children == self.node().children,
    {
        let mut b = self;
        b.inner.ty = Some(ty.to_owned());
        b
    }

    /// Adds an argument.
    pub fn arg(self, value: KdlValue) -> (r: Self)
        ensures
            r.node().entries@ == self.node().entries@.push(KdlEntry::Argument { ty: None, value }),
            r.node().ty == self.node().ty,
            r.node().name == self.node().name,
            r.node().children == self.node().children,
    {
        let mut b = self;
        b.inner.entries.push(KdlEntry::Argument { ty: None, value });
        b
    }

    /// Adds a string argument.
    pub fn string_arg(self, value: &str) -> (r: Self)
        ensures
            r.node().entries@.len() == self.node().entries@.len() + 1,
            r.node().entries@.drop_last() == self.node().entries@,
            r.node().entries@.last() matches KdlEntry::Argument { ty: None, value: KdlValue::String(s) }
                && s@ == value@,
            r.node().ty == self.node().ty,
            r.node().name == self.node().name,
            r.node().children == self.node().children,
    {
        let r = self.arg(KdlValue::String(value.to_owned()));
        proof {
            assert(r.node().entries@.drop_last() =~= self.node().entries@);
        }
        r
    }

    /// Adds a boolean argument.
    pub fn bool_arg(self, value: bool) -> (r: Self)
        ensures
            r.node().entries@ == self.node().entries@.push(
                KdlEntry::Argument { ty: None, value: KdlValue::Bool(value) },
            ),
            r.node().ty == self.node().ty,
            r.node().name == self.node().name,
            r.node().children == self.node().children,
    {
        self.arg(KdlValue::Bool(value))
    }

    /// Adds an integer argument, written in decimal.
    pub fn int_arg(self, value: i64) -> (r: Self)
        ensures
            r.node().entries@.len() == self.node().entries@.len() + 1,
            r.node().entries@.drop_last() == self.node().entries@,
            r.node().entries@.last() matches KdlEntry::Argument { ty: None, value: KdlValue::Number(n) }
                && n.raw@ == int_text(value as int) && n.as_i64 == Some(value),
            r.node().ty == self.node().ty,
            r.node().name == self.node().name,
            r.node().children == self.node().children,
    {
        let r = self.arg(KdlValue::Number(int_number(value)));
        proof {
            assert(r.node().entries@.drop_last() =~= self.node().entries@);
        }
        r
    }

    /// Adds an argument with a type annotation.
    pub fn typed_arg(self, ty: &str, value: KdlValue) -> (r: Self)
        ensures
            r.node().entries@.len() == self.node().entries@.len() + 1,
            r.node().entries@.drop_last() == self.node().entries@,
            r.node().entries@.last() matches KdlEntry::Argument { ty: Some(t), value: v } && t@
                == ty@ && v == value,
            r.node().ty == self.node().ty,
            r.node().name == self.node().name,
            r.node().children == self.node().children,
    {
        let mut b = self;
        b.inner.entries.push(KdlEntry::Argument { ty: Some(ty.to_owned()), value });
        proof {
            assert(b.node().entries@.drop_last() =~= self.node().entries@);
        }
        b
    }

    /// Adds a property.
    pub fn prop(self, key: &str, value: KdlValue) -> (r: Self)
        ensures
            r.node().entries@.len() == self.node().entries@.len() + 1,
            r.node().entries@.drop_last() == self.node().entries@,
            r.node().entries@.last() matches KdlEntry::Property { key: k, ty: None, value: v }
                && k@ == key@ && v == value,
            r.node().ty == self.node().ty,
            r.node().name == self.node().name,
            r.node().children == self.node().children,
    {
        let mut b = self;
        b.inner.entries.push(KdlEntry::Property { key: key.to_owned(), ty: None, value });
        proof {
            assert(b.node().entries@.drop_last() =~= self.node().entries@);
        }
        b
    }

    /// Adds a string property.
    pub fn string_prop(self, key: &str, value: &str) -> (r: Self)
        ensures
            r.node().entries@.len() == self.node().entries@.len() + 1,
            r.node().entries@.drop_last() == self.node().entries@,
            r.node().entries@.last() matches KdlEntry::Property {
                key: k,
                ty: None,
                value: KdlValue::String(s),
            } && k@ == key@ && s@ == value@,
            r.node().ty == self.node().ty,
            r.node().name == self.node().name,
            r.node().children == self.node().children,
    {
        self.prop(key, KdlValue::String(value.to_owned()))
    }

    /// Adds a boolean property.
    pub fn bool_prop(self, key: &str, value: bool) -> (r: Self)
        ensures
            r.node().entries@.len() == self.node().entries@.len() + 1,
            r.node().entries@.drop_last() == self.node().entries@,
            r.node().entries@.last() matches KdlEntry::Property {
                key: k,
                ty: None,
                value: KdlValue::Bool(b),
            } && k@ == key@ && b == value,
            r.node().ty == self.node().ty,
            r.node().name == self.node().name,
            r.node().children == self.node().children,
    {
        self.prop(key, KdlValue::Bool(value))
    }

    /// Adds an integer property, written in decimal.
    pub fn int_prop(self, key: &str, value: i64) -> (r: Self)
        ensures
            r.node().entries@.len() == self.node().entries@.len() + 1,
            r.node().entries@.drop_last() == self.node().entries@,
            r.node().entries@.last() matches KdlEntry::Property {
                key: k,
                ty: None,
                value: KdlValue::Number(n),
            } && k@ == key@ && n.raw@ == int_text(value as int) && n.as_i64 == Some(value),
            r.node().ty == self.node().ty,
            r.node().name == self.node().name,
            r.node().children == self.node().children,
    {
        self.prop(key, KdlValue::Number(int_number(value)))
    }

    /// Adds a property with a type annotation.
    pub fn typed_prop(self, key: &str, ty: &str, value: KdlValue) -> (r: Self)
        ensures
            r.node().entries@.len() == self.node().entries@.len() + 1,
            r.node().entries@.drop_last() == self.node().entries@,
            r.node().entries@.last() matches KdlEntry::Property { key: k, ty: Some(t), value: v }
                && k@ == key@ && t@ == ty@ && v == value,
            r.node().ty == self.node().ty,
            r.node().name == self.node().name,
            r.node().children == self.node().children,
    {
        let mut b = self;
        b.inner.entries.push(
            KdlEntry::Property { key: key.to_owned(), ty: Some(ty.to_owned()), value },
        );
        proof {
            assert(b.node().entries@.drop_last() =~= self.node().entries@);
        }
        b
    }

    /// Adds a child, opening the block of children if there is none.
    pub fn child(self, child: KdlNode) -> (r: Self)
        ensures
            r.node().children matches Some(c) && c@ == (match self.node().children {
                Some(old) => old@,
                None => Seq::empty(),
            }).push(child),
            r.node().ty == self.node().ty,
            r.node().name == self.node().name,
            r.node().entries == self.node().entries,
    {
        let mut b = self;
        let mut children = match b.inner.children {
            Some(c) => c,
            None => Vec::new(),
        };
        children.push(child);
        b.inner.children = Some(children);
        b
    }

    /// Adds children in order, opening the block of children if there is
    /// none.
    pub fn children(self, nodes: Vec<KdlNode>) -> (r: Self)
        ensures
            r.node().children matches Some(c) && c@ == (match self.node().children {
                Some(old) => old@,
                None => Seq::empty(),
            }) + nodes@,
            r.node().ty == self.node().ty,
            r.node().name == self.node().name,
            r.node().entries == self.node().entries,
    {
        let mut b = self;
        let mut children = match b.inner.children {
            Some(c) => c,
            None => Vec::new(),
        };
        let mut more = nodes;
        children.append(&mut more);
        b.inner.children = Some(children);
        b
    }

    /// The node built.
    pub fn build(self) -> (r: KdlNode)
        ensures
            r == self.node(),
    {
        self.inner
    }
}

impl KdlDocumentBuilder {
    /// The document built so far.
    pub closed spec fn document(&self) -> KdlDocument {
        self.inner
    }

    /// A document with no node.
    pub fn new() -> (r: Self)
        ensures
            r.document().nodes@.len() == 0,
    {
        KdlDocumentBuilder { inner: KdlDocument { nodes: Vec::new() } }
    }

    /// Adds a node.
    pub fn node(self, node: KdlNode) -> (r: Self)
        ensures
            r.document().nodes@ == self.document().nodes@.push(node),
    {
        let mut b = self;
        b.inner.nodes.push(node);
        b
    }

    /// Adds nodes in order.
    pub fn nodes(self, nodes: Vec<KdlNode>) -> (r: Self)
        ensures
            r.document().nodes@ == self.document().nodes@ + nodes@,
    {
        let mut b = self;
        let mut more = nodes;
        b.inner.nodes.append(&mut more);
        b
    }

    /// The document built.
    pub fn build(self) -> (r: KdlDocument)
        ensures
            r == self.document(),
    {
        self.inner
    }
}

impl Default for KdlDocumentBuilder {
    fn default() -> (r: Self)
        ensures
            r.document().nodes@.len() == 0,
    {
        KdlDocumentBuilder::new()
    }
}

impl KdlNode {
    /// A builder for a node named `name`.
    pub fn builder(name: &str) -> (r: KdlNodeBuilder)
        ensures
            r.node().name@ == name@,
            r.node().ty is None,
            r.node().entries@.len() == 0,
            r.node().children is None,
    {
        KdlNodeBuilder::new(name)
    }
}

impl KdlDocument {
    /// A builder for a document, with no node yet.
    pub fn builder() -> (r: KdlDocumentBuilder)
        ensures
            r.document().nodes@.len() == 0,
    {
        KdlDocumentBuilder::new()
    }
}

} // verus!
