//! A value shape shared by the structured views of documents: null,
//! booleans, numbers (as their text), strings, sequences and mappings.
use vstd::prelude::*;

verus! {

/// A structured value.
#[derive(Debug, PartialEq)]
pub enum StructuredValue {
    Null,
    Bool(bool),
    Number(StructuredNumber),
    String(String),
    Sequence(Vec<StructuredValue>),
    Mapping(Vec<StructuredField>),
}

/// A number, kept as its text.
#[derive(Debug, Clone, PartialEq)]
pub struct StructuredNumber {
    pub raw: String,
}

/// A named field of a mapping.
#[derive(Debug, PartialEq)]
pub struct StructuredField {
    pub key: String,
    pub value: StructuredValue,
}

/// The mathematical model of a structured value.
pub enum Structured {
    Null,
    Bool(bool),
    Number(Seq<char>),
    Str(Seq<char>),
    Sequence(Seq<Structured>),
    Mapping(Seq<(Seq<char>, Structured)>),
}

pub open spec fn structured_view(v: &StructuredValue) -> Structured
    decreases v,
{
    match v {
        StructuredValue::Null => Structured::Null,
        StructuredValue::Bool(b) => Structured::Bool(*b),
        StructuredValue::Number(n) => Structured::Number(n.raw@),
        StructuredValue::String(s) => Structured::Str(s@),
        StructuredValue::Sequence(items) => Structured::Sequence(sequence_view(items@)),
        StructuredValue::Mapping(fields) => Structured::Mapping(mapping_view(fields@)),
    }
}

pub open spec fn sequence_view(items: Seq<StructuredValue>) -> Seq<Structured>
    decreases items,
{
    if items.len() == 0 {
        Seq::empty()
    } else {
        sequence_view(items.drop_last()).push(structured_view(&items.last()))
    }
}

pub open spec fn mapping_view(fields: Seq<StructuredField>) -> Seq<(Seq<char>, Structured)>
    decreases fields,
{
    if fields.len() == 0 {
        Seq::empty()
    } else {
        mapping_view(fields.drop_last()).push(
            (fields.last().key@, structured_view(&fields.last().value)),
        )
    }
}

impl View for StructuredValue {
    type V = Structured;

    open spec fn view(&self) -> Structured {
        structured_view(self)
    }
}

pub proof fn lemma_sequence_view_push(items: Seq<StructuredValue>, x: StructuredValue)
    ensures
        sequence_view(items.push(x)) == sequence_view(items).push(x@),
{
    assert(items.push(x).drop_last() =~= items);
}

pub proof fn lemma_mapping_view_push(fields: Seq<StructuredField>, x: StructuredField)
    ensures
        mapping_view(fields.push(x)) == mapping_view(fields).push((x.key@, x.value@)),
{
    assert(fields.push(x).drop_last() =~= fields);
}

impl StructuredNumber {
    /// A number with text `raw`.
    pub fn from_parts(raw: String) -> (r: Self)
        ensures
            r.raw@ == raw@,
    {
        StructuredNumber { raw }
    }
}

impl StructuredValue {
    /// The string, for a string value.
    pub fn as_str(&self) -> (r: Option<&str>)
        ensures
            match *self {
                StructuredValue::String(t) => r matches Some(x) && x@ == t@,
                _ => r is None,
            },
    {
        match self {
            StructuredValue::String(value) => Some(value.as_str()),
            _ => None,
        }
    }

    /// The boolean, for a boolean value.
    pub fn as_bool(&self) -> (r: Option<bool>)
        ensures
            match *self {
                StructuredValue::Bool(b) => r == Some(b),
                _ => r is None,
            },
    {
        match self {
            StructuredValue::Bool(value) => Some(*value),
            _ => None,
        }
    }

    /// The items, for a sequence.
    pub fn as_sequence(&self) -> (r: Option<&[StructuredValue]>)
        ensures
            match *self {
                StructuredValue::Sequence(items) => r matches Some(x) && x@ == items@,
                _ => r is None,
            },
    {
        match self {
            StructuredValue::Sequence(values) => Some(values.as_slice()),
            _ => None,
        }
    }

    /// The fields, for a mapping.
    pub fn as_mapping(&self) -> (r: Option<&[StructuredField]>)
        ensures
            match *self {
                StructuredValue::Mapping(fields) => r matches Some(x) && x@ == fields@,
                _ => r is None,
            },
    {
        match self {
            StructuredValue::Mapping(fields) => Some(fields.as_slice()),
            _ => None,
        }
    }
}

/// Reading a node of a structured document, whatever its format: its kind
/// and identifier, its attributes, its type annotation, its children and
/// its whole value.
pub trait StructuredNode<'a>: Sized {
    /// The text of the node's kind.
    spec fn kind_view(&self) -> Seq<char>;

    /// The text of the node's identifier, where it has one.
    spec fn identifier_view(&self) -> Option<Seq<char>>;

    /// The attribute `key`, where there is one.
    spec fn attribute_view(&self, key: Seq<char>) -> Option<Structured>;

    /// The attribute `key`, where it is a string.
    spec fn attribute_str_view(&self, key: Seq<char>) -> Option<Seq<char>>;

    /// The attribute `key`, where it is a boolean.
    spec fn attribute_bool_view(&self, key: Seq<char>) -> Option<bool>;

    /// The text of the node's type annotation, where it has one.
    spec fn type_annotation_view(&self) -> Option<Seq<char>>;

    /// `cs` are the node's children, in order.
    spec fn children_are(&self, cs: Seq<Self>) -> bool;

    /// The node as a structured value.
    spec fn node_value_view(&self) -> Structured;

    /// What the node is.
    fn kind(&self) -> (r: &'a str)
        ensures
            r@ == self.kind_view(),
    ;

    /// The name that identifies the node, where it has one.
    fn identifier(&self) -> (r: Option<&'a str>)
        ensures
            match self.identifier_view() {
                Some(t) => r matches Some(x) && x@ == t,
                None => r is None,
            },
    ;

    /// The attribute `key`.
    fn attribute(&self, key: &str) -> (r: Option<StructuredValue>)
        ensures
            match self.attribute_view(key@) {
                Some(v) => r matches Some(x) && x@ == v,
                None => r is None,
            },
    ;

    /// The attribute `key` when it is a string.
    fn attribute_str(&self, key: &str) -> (r: Option<String>)
        ensures
            match self.attribute_str_view(key@) {
                Some(t) => r matches Some(x) && x@ == t,
                None => r is None,
            },
    ;

    /// The attribute `key` when it is a boolean.
    fn attribute_bool(&self, key: &str) -> (r: Option<bool>)
        ensures
            r == self.attribute_bool_view(key@),
    ;

    /// The node's type annotation.
    fn type_annotation(&self) -> (r: Option<&'a str>)
        ensures
            match self.type_annotation_view() {
                Some(t) => r matches Some(x) && x@ == t,
                None => r is None,
            },
    ;

    /// The nodes below this one, in order.
    fn children(&self) -> (r: Vec<Self>)
        ensures
            self.children_are(r@),
    ;

    /// The node as a structured value.
    fn value(&self) -> (r: StructuredValue)
        ensures
            r@ == self.node_value_view(),
    ;
}

/// A structured document: its top-level nodes.
pub trait StructuredDocument<'a> {
    type Node: StructuredNode<'a>;

    /// `ns` are the document's top-level nodes, in order.
    spec fn nodes_are(&self, ns: Seq<Self::Node>) -> bool;

    /// The top-level nodes, in order.
    fn nodes(&'a self) -> (r: Vec<Self::Node>)
        ensures
            self.nodes_are(r@),
    ;
}

} // verus!
