use vstd::prelude::*;

verus! {

/// A JSON value. Numbers are kept as their literal text, exactly as they
/// stand in the document (`-1.5e3`, `0`, ...).
#[derive(Debug, PartialEq)]
pub enum JsonValue {
    Null,
    Bool(bool),
    Number(String),
    String(String),
    Array(Vec<JsonValue>),
    Object(Vec<(String, JsonValue)>),
}

/// The mathematical model of a JSON value.
pub enum Json {
    Null,
    Bool(bool),
    Number(Seq<char>),
    Str(Seq<char>),
    Array(Seq<Json>),
    Object(Seq<(Seq<char>, Json)>),
}

pub open spec fn json_view(v: &JsonValue) -> Json
    decreases v,
{
    match v {
        JsonValue::Null => Json::Null,
        JsonValue::Bool(b) => Json::Bool(*b),
        JsonValue::Number(n) => Json::Number(n@),
        JsonValue::String(s) => Json::Str(s@),
        JsonValue::Array(items) => Json::Array(items_view(items@)),
        JsonValue::Object(fields) => Json::Object(fields_view(fields@)),
    }
}

pub open spec fn items_view(items: Seq<JsonValue>) -> Seq<Json>
    decreases items,
{
    if items.len() == 0 {
        Seq::empty()
    } else {
        items_view(items.drop_last()).push(json_view(&items.last()))
    }
}

pub open spec fn fields_view(fields: Seq<(String, JsonValue)>) -> Seq<(Seq<char>, Json)>
    decreases fields,
{
    if fields.len() == 0 {
        Seq::empty()
    } else {
        fields_view(fields.drop_last()).push((fields.last().0@, json_view(&fields.last().1)))
    }
}

pub proof fn lemma_items_view(items: Seq<JsonValue>)
    ensures
        items_view(items).len() == items.len(),
        forall|i: int| 0 <= i < items.len() ==> #[trigger] items_view(items)[i] == json_view(&items[i]),
    decreases items.len(),
{
    if items.len() > 0 {
        lemma_items_view(items.drop_last());
    }
}

pub proof fn lemma_fields_view(fields: Seq<(String, JsonValue)>)
    ensures
        fields_view(fields).len() == fields.len(),
        forall|i: int|
            0 <= i < fields.len() ==> #[trigger] fields_view(fields)[i] == (
                fields[i].0@,
                json_view(&fields[i].1),
            ),
    decreases fields.len(),
{
    if fields.len() > 0 {
        lemma_fields_view(fields.drop_last());
    }
}

impl JsonValue {
    /// A copy of the value, with the same view.
    pub fn deep_copy(&self) -> (r: JsonValue)
        ensures
            r@ == self@,
        decreases self,
    {
        match self {
            JsonValue::Null => JsonValue::Null,
            JsonValue::Bool(b) => JsonValue::Bool(*b),
            JsonValue::Number(n) => JsonValue::Number(n.clone()),
            JsonValue::String(s) => JsonValue::String(s.clone()),
            JsonValue::Array(items) => {
                proof {
                    assert(decreases_to!(self => items));
                }
                JsonValue::Array(copy_items(items))
            },
            JsonValue::Object(fields) => {
                proof {
                    assert(decreases_to!(self => fields));
                }
                JsonValue::Object(copy_fields(fields))
            },
        }
    }
}

fn copy_items(items: &Vec<JsonValue>) -> (out: Vec<JsonValue>)
    ensures
        items_view(out@) == items_view(items@),
    decreases items,
{
    let mut out: Vec<JsonValue> = Vec::new();
    let mut i: usize = 0;
    while i < items.len()
        invariant
            0 <= i <= items@.len(),
            out@.len() == i,
            forall|j: int| 0 <= j < i ==> (#[trigger] out@[j])@ == items@[j]@,
        decreases items@.len() - i,
    {
        proof {
            assert(decreases_to!(items => items@[i as int]));
        }
        let c = items[i].deep_copy();
        out.push(c);
        i = i + 1;
    }
    proof {
        lemma_items_view(out@);
        lemma_items_view(items@);
        assert(items_view(out@) =~= items_view(items@));
    }
    out
}

fn copy_fields(fields: &Vec<(String, JsonValue)>) -> (out: Vec<(String, JsonValue)>)
    ensures
        fields_view(out@) == fields_view(fields@),
    decreases fields,
{
    let mut out: Vec<(String, JsonValue)> = Vec::new();
    let mut i: usize = 0;
    while i < fields.len()
        invariant
            0 <= i <= fields@.len(),
            out@.len() == i,
            forall|j: int|
                0 <= j < i ==> (#[trigger] out@[j]).0@ == fields@[j].0@ && out@[j].1@
                    == fields@[j].1@,
        decreases fields@.len() - i,
    {
        proof {
            assert(decreases_to!(fields => fields@[i as int].1));
        }
        let k = fields[i].0.clone();
        let c = fields[i].1.deep_copy();
        out.push((k, c));
        i = i + 1;
    }
    proof {
        lemma_fields_view(out@);
        lemma_fields_view(fields@);
        assert(fields_view(out@) =~= fields_view(fields@));
    }
    out
}

impl Clone for JsonValue {
    fn clone(&self) -> (r: Self) {
        self.deep_copy()
    }
}

impl View for JsonValue {
    type V = Json;

    open spec fn view(&self) -> Json {
        json_view(self)
    }
}

} // verus!
