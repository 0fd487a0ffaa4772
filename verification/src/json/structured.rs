//! A JSON document seen as structured nodes: the fields of a top-level
//! object are its nodes, named by their keys; array items are children
//! named `item`.
use vstd::prelude::*;
use crate::ast::{
    lemma_mapping_view_push, lemma_sequence_view_push, Structured, StructuredField,
    StructuredNumber, StructuredValue,
};
use super::access::lookup;
use super::error::ParseError;
use super::parse::parse as parse_value;
use super::spec::document;
use super::value::{fields_view, items_view, lemma_fields_view, lemma_items_view, Json, JsonValue};

verus! {

/// The structured form of a JSON value: numbers by their text, arrays as
/// sequences, objects as mappings with their keys in order.
pub open spec fn json_structured(j: Json) -> Structured
    decreases j,
{
    match j {
        Json::Null => Structured::Null,
        Json::Bool(b) => Structured::Bool(b),
        Json::Number(t) => Structured::Number(t),
        Json::Str(s) => Structured::Str(s),
        Json::Array(items) => Structured::Sequence(json_structured_items(items)),
        Json::Object(fields) => Structured::Mapping(json_structured_fields(fields)),
    }
}

pub open spec fn json_structured_items(items: Seq<Json>) -> Seq<Structured>
    decreases items,
{
    if items.len() == 0 {
        Seq::empty()
    } else {
        json_structured_items(items.drop_last()).push(json_structured(items.last()))
    }
}

pub open spec fn json_structured_fields(fields: Seq<(Seq<char>, Json)>) -> Seq<
    (Seq<char>, Structured),
>
    decreases fields,
{
    if fields.len() == 0 {
        Seq::empty()
    } else {
        json_structured_fields(fields.drop_last()).push(
            (fields.last().0, json_structured(fields.last().1)),
        )
    }
}

/// The structured form of a JSON value.
pub fn value_to_structured(value: &JsonValue) -> (r: StructuredValue)
    ensures
        r@ == json_structured(value@),
    decreases value,
{
    match value {
        JsonValue::Null => StructuredValue::Null,
        JsonValue::Bool(b) => StructuredValue::Bool(*b),
        JsonValue::Number(n) => StructuredValue::Number(StructuredNumber::from_parts(n.clone())),
        JsonValue::String(s) => StructuredValue::String(s.clone()),
        JsonValue::Array(items) => {
            proof {
                assert(decreases_to!(value => items));
            }
            StructuredValue::Sequence(structured_items_of(items))
        },
        JsonValue::Object(fields) => {
            proof {
                assert(decreases_to!(value => fields));
            }
            StructuredValue::Mapping(structured_fields_of(fields))
        },
    }
}

fn structured_items_of(items: &Vec<JsonValue>) -> (out: Vec<StructuredValue>)
    ensures
        crate::ast::sequence_view(out@) == json_structured_items(items_view(items@)),
    decreases items,
{
    let mut out: Vec<StructuredValue> = Vec::new();
    let mut i: usize = 0;
    let ghost iv = items_view(items@);
    proof {
        lemma_items_view(items@);
        assert(crate::ast::sequence_view(out@) =~= json_structured_items(iv.take(0)));
}
while i < items.len()
    invariant
        iv == items_view(items@),
        iv.len() == items@.len(),
        forall|k: int| 0 <= k < items@.len() ==> #[trigger] iv[k] == items@[k]@,
        0 <= i <= items@.len(),
        crate::ast::sequence_view(out@) == json_structured_items(iv.take(i as int)),
    decreases items@.len() - i,
{
    proof {
        assert(decreases_to!(items => items@[i as int]));
    }
    let x = value_to_structured(&items[i]);
    let ghost before = out@;
    out.push(x);
    proof {
        lemma_sequence_view_push(before, x);
        assert(iv.take(i + 1).drop_last() =~= iv.take(i as int));
        assert(iv.take(i + 1).last() == items@[i as int]@);
    }
    i = i + 1;
}
proof {
    assert(iv.take(items@.len() as int) =~= iv);
}
out
}

fn structured_fields_of(fields: &Vec<(String, JsonValue)>) -> (out: Vec<StructuredField>)
    ensures
        crate::ast::mapping_view(out@) == json_structured_fields(fields_view(fields@)),
    decreases fields,
{
    let mut out: Vec<StructuredField> = Vec::new();
    let mut i: usize = 0;
    let ghost fv = fields_view(fields@);
    proof {
        lemma_fields_view(fields@);
        assert(crate::ast::mapping_view(out@) =~= json_structured_fields(fv.take(0)));
}
while i < fields.len()
    invariant
        fv == fields_view(fields@),
        fv.len() == fields@.len(),
        forall|k: int|
            0 <= k < fields@.len() ==> #[trigger] fv[k] == (
                fields@[k].0@,
                fields@[k].1@,
            ),
        0 <= i <= fields@.len(),
        crate::ast::mapping_view(out@) == json_structured_fields(fv.take(i as int)),
    decreases fields@.len() - i,
{
    proof {
        assert(decreases_to!(fields => fields@[i as int].1));
    }
    let x = value_to_structured(&fields[i].1);
    let f = StructuredField { key: fields[i].0.clone(), value: x };
    let ghost before = out@;
    out.push(f);
    proof {
        lemma_mapping_view_push(before, f);
        assert(fv.take(i + 1).drop_last() =~= fv.take(i as int));
        assert(fv.take(i + 1).last() == fv[i as int]);
    }
    i = i + 1;
}
proof {
    assert(fv.take(fields@.len() as int) =~= fv);
}
out
}

/// A parsed JSON document.
#[derive(Debug, PartialEq)]
pub struct JsonDocument {
    value: JsonValue,
}

/// A node of a JSON document: a value, with the key it stands under.
#[derive(Debug, Clone, Copy)]
pub struct JsonNode<'a> {
    key: Option<&'a str>,
    value: &'a JsonValue,
}

/// Parses `input` as a JSON document.
pub fn parse(input: &[u8]) -> (r: Result<JsonDocument, ParseError>)
    ensures
        match document(input@) {
            Ok(v) => r matches Ok(d) && d.value_spec()@ == v,
            Err(e) => r == Err::<JsonDocument, ParseError>(e),
        },
{
    match parse_value(input) {
        Ok(value) => Ok(JsonDocument::from_value(value)),
        Err(e) => Err(e),
    }
}

impl JsonDocument {
    /// The value of the document.
    pub closed spec fn value_spec(&self) -> JsonValue {
        self.value
    }

    /// The document holding `value`.
    pub fn from_value(value: JsonValue) -> (r: Self)
        ensures
            r.value_spec() == value,
    {
        JsonDocument { value }
    }

    /// The value of the document.
    pub fn as_value(&self) -> (r: &JsonValue)
        ensures
            *r == self.value_spec(),
    {
        &self.value
    }

    /// The nodes of the document: one per field of a top-level object, in
    /// order and named by their keys; else the value itself, unnamed.
    pub fn nodes(&self) -> (r: Vec<JsonNode<'_>>)
        ensures
            match self.value_spec() {
                JsonValue::Object(fields) => field_nodes(r@, fields@),
                _ => r@.len() == 1 && r@[0].key_spec() is None && r@[0].value_spec()
                    == self.value_spec(),
            },
    {
        match &self.value {
            JsonValue::Object(fields) => nodes_of_fields(fields),
            _ => {
                let mut out: Vec<JsonNode<'_>> = Vec::new();
                out.push(JsonNode::from_value(&self.value));
                out
            },
        }
    }
}

/// Nodes `ns` stand for `fields`, one each, in order.
pub open spec fn field_nodes(ns: Seq<JsonNode>, fields: Seq<(String, JsonValue)>) -> bool {
    ns.len() == fields.len() && forall|i: int|
        0 <= i < ns.len() ==> (#[trigger] ns[i]).key_spec() == Some(fields[i].0@)
            && ns[i].value_spec() == fields[i].1
}

fn nodes_of_fields<'a>(fields: &'a Vec<(String, JsonValue)>) -> (r: Vec<JsonNode<'a>>)
    ensures
        field_nodes(r@, fields@),
{
    let mut out: Vec<JsonNode<'a>> = Vec::new();
    let mut i: usize = 0;
    while i < fields.len()
        invariant
            0 <= i <= fields@.len(),
            out@.len() == i,
            forall|k: int|
                0 <= k < i ==> (#[trigger] out@[k]).key_spec() == Some(fields@[k].0@)
                    && out@[k].value_spec() == fields@[k].1,
        decreases fields@.len() - i,
    {
        out.push(JsonNode { key: Some(fields[i].0.as_str()), value: &fields[i].1 });
        i = i + 1;
    }
    out
}

impl<'a> JsonNode<'a> {
    /// The key the node stands under.
    pub closed spec fn key_spec(&self) -> Option<Seq<char>> {
        match self.key {
            Some(k) => Some(k@),
            None => None,
        }
    }

    /// The value of the node.
    pub closed spec fn value_spec(&self) -> JsonValue {
        *self.value
    }

    /// The node of a value that stands under no key.
    pub fn from_value(value: &'a JsonValue) -> (r: Self)
        ensures
            r.key_spec() is None,
            r.value_spec() == *value,
    {
        JsonNode { key: None, value }
    }

    /// The value of the node.
    pub fn as_value(&self) -> (r: &'a JsonValue)
        ensures
            *r == self.value_spec(),
    {
        self.value
    }

    /// The kind of the node: its key, or `root`.
    pub fn kind(&self) -> (r: &'a str)
        ensures
            r@ == (match self.key_spec() {
                Some(k) => k,
                None => seq!['r', 'o', 'o', 't'],
            }),
    {
        match self.key {
            Some(k) => k,
            None => {
                let root = "root";
                proof {
                    reveal_strlit("root");
                }
                root
            },
        }
    }

    /// The identifier of the node: its key.
    pub fn identifier(&self) -> (r: Option<&'a str>)
        ensures
            match self.key_spec() {
                Some(k) => r matches Some(x) && x@ == k,
                None => r is None,
            },
    {
        self.key
    }

    /// The structured form of the first field named `key` of an object.
    pub fn attribute(&self, key: &str) -> (r: Option<StructuredValue>)
        ensures
            match lookup(self.value_spec(), key@) {
                Some(v) => r matches Some(x) && x@ == json_structured(v@),
                None => r is None,
            },
    {
        match self.value.get(key) {
            Some(v) => Some(value_to_structured(v)),
            None => None,
        }
    }

    /// The first field named `key` of an object, when it is a string.
    pub fn attribute_str(&self, key: &str) -> (r: Option<String>)
        ensures
            match lookup(self.value_spec(), key@) {
                Some(JsonValue::String(t)) => r matches Some(x) && x@ == t@,
                _ => r is None,
            },
    {
        match self.value.get(key) {
            Some(JsonValue::String(t)) => Some(t.clone()),
            _ => None,
        }
    }

    /// The first field named `key` of an object, when it is a boolean.
    pub fn attribute_bool(&self, key: &str) -> (r: Option<bool>)
        ensures
            match lookup(self.value_spec(), key@) {
                Some(JsonValue::Bool(b)) => r == Some(b),
                _ => r is None,
            },
    {
        match self.value.get(key) {
            Some(JsonValue::Bool(b)) => Some(*b),
            _ => None,
        }
    }

    /// JSON has no type annotations.
    pub fn type_annotation(&self) -> (r: Option<&'a str>)
        ensures
            r is None,
    {
        None
    }

    /// The children: the fields of an object under their keys, the items of
    /// an array under `item`, none for anything else.
    pub fn children(&self) -> (r: Vec<JsonNode<'a>>)
        ensures
            match self.value_spec() {
                JsonValue::Object(fields) => field_nodes(r@, fields@),
                JsonValue::Array(items) => r@.len() == items@.len() && forall|i: int|
                    0 <= i < r@.len() ==> (#[trigger] r@[i]).key_spec() == Some(
                        seq!['i', 't', 'e', 'm'],
                    ) && r@[i].value_spec() == items@[i],
                _ => r@.len() == 0,
            },
    {
        match self.value {
            JsonValue::Object(fields) => nodes_of_fields(fields),
            JsonValue::Array(items) => {
                let item = "item";
                proof {
                    reveal_strlit("item");
                }
                let mut out: Vec<JsonNode<'a>> = Vec::new();
                let mut i: usize = 0;
                while i < items.len()
                    invariant
                        item@ == seq!['i', 't', 'e', 'm'],
                        0 <= i <= items@.len(),
                        out@.len() == i,
                        forall|k: int|
                            0 <= k < i ==> (#[trigger] out@[k]).key_spec() == Some(
                                seq!['i', 't', 'e', 'm'],
                            ) && out@[k].value_spec() == items@[k],
                    decreases items@.len() - i,
                {
                    out.push(JsonNode { key: Some(item), value: &items[i] });
                    i = i + 1;
                }
                out
            },
            _ => Vec::new(),
        }
    }

    /// The structured form of the node's value.
    pub fn value(&self) -> (r: StructuredValue)
        ensures
            r@ == json_structured(self.value_spec()@),
    {
        value_to_structured(self.value)
    }
}

impl<'a> crate::ast::StructuredNode<'a> for JsonNode<'a> {
    /// The key, or `root` for the top of the document.
    open spec fn kind_view(&self) -> Seq<char> {
        match self.key_spec() {
            Some(k) => k,
            None => seq!['r', 'o', 'o', 't'],
        }
    }

    /// The key.
    open spec fn identifier_view(&self) -> Option<Seq<char>> {
        self.key_spec()
    }

    /// The member `key` of an object.
    open spec fn attribute_view(&self, key: Seq<char>) -> Option<Structured> {
        match lookup(self.value_spec(), key) {
            Some(v) => Some(json_structured(v@)),
            None => None,
        }
    }

    /// The member `key` of an object, where it is a string.
    open spec fn attribute_str_view(&self, key: Seq<char>) -> Option<Seq<char>> {
        match lookup(self.value_spec(), key) {
            Some(JsonValue::String(t)) => Some(t@),
            _ => None,
        }
    }

    /// The member `key` of an object, where it is a boolean.
    open spec fn attribute_bool_view(&self, key: Seq<char>) -> Option<bool> {
        match lookup(self.value_spec(), key) {
            Some(JsonValue::Bool(b)) => Some(b),
            _ => None,
        }
    }

    /// JSON has no type annotations.
    open spec fn type_annotation_view(&self) -> Option<Seq<char>> {
        None
    }

    /// The members of an object, or the items of an array under the key
    /// `item`; nothing for other values.
    open spec fn children_are(&self, cs: Seq<JsonNode<'a>>) -> bool {
        match self.value_spec() {
            JsonValue::Object(fields) => field_nodes(cs, fields@),
            JsonValue::Array(items) => cs.len() == items@.len() && forall|i: int|
                0 <= i < cs.len() ==> (#[trigger] cs[i]).key_spec() == Some(
                    seq!['i', 't', 'e', 'm'],
                ) && cs[i].value_spec() == items@[i],
            _ => cs.len() == 0,
        }
    }

    /// The value's structured form.
    open spec fn node_value_view(&self) -> Structured {
        json_structured(self.value_spec()@)
    }

    fn kind(&self) -> (r: &'a str) {
        JsonNode::kind(self)
    }

    fn identifier(&self) -> (r: Option<&'a str>) {
        JsonNode::identifier(self)
    }

    fn attribute(&self, key: &str) -> (r: Option<StructuredValue>) {
        JsonNode::attribute(self, key)
    }

    fn attribute_str(&self, key: &str) -> (r: Option<String>) {
        JsonNode::attribute_str(self, key)
    }

    fn attribute_bool(&self, key: &str) -> (r: Option<bool>) {
        JsonNode::attribute_bool(self, key)
    }

    fn type_annotation(&self) -> (r: Option<&'a str>) {
        JsonNode::type_annotation(self)
    }

    fn children(&self) -> (r: Vec<JsonNode<'a>>) {
        JsonNode::children(self)
    }

    fn value(&self) -> (r: StructuredValue) {
        JsonNode::value(self)
    }
}

impl<'a> crate::ast::StructuredDocument<'a> for JsonDocument {
    type Node = JsonNode<'a>;

    /// The members of a top-level object, or else the whole value as one
    /// node without a key.
    open spec fn nodes_are(&self, ns: Seq<JsonNode<'a>>) -> bool {
        match self.value_spec() {
            JsonValue::Object(fields) => field_nodes(ns, fields@),
            _ => ns.len() == 1 && ns[0].key_spec() is None && ns[0].value_spec()
                == self.value_spec(),
        }
    }

    fn nodes(&'a self) -> (r: Vec<JsonNode<'a>>) {
        JsonDocument::nodes(self)
    }
}

} // verus!
