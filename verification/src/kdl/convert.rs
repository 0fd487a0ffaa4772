//! KDL documents against a format-neutral value: an object whose keys are
//! node names; scalars as single arguments, arrays as several arguments,
//! objects as blocks of children. Floats carry a `(f64)` annotation and are
//! held as their number text.
use vstd::prelude::*;
use super::builder::{int_number, int_text};
use super::value::{
    entries_view, lemma_nodes_view, lemma_nodes_view_push, nodes_view, Entry,
    KdlDocument, KdlEntry, KdlError, KdlErrorKind, KdlNode, KdlNumber, KdlValue, Node, Val,
};
use crate::text::str_chars;

verus! {

/// A format-neutral value. Integers and floats are kept apart; a float is
/// held as its number text.
#[derive(Debug, PartialEq)]
pub enum Value {
    Null,
    Bool(bool),
    Integer(i64),
    Float(String),
    String(String),
    Array(Vec<Value>),
    Object(Vec<(String, Value)>),
}

/// The model of a value.
pub enum ValueV {
    Null,
    Bool(bool),
    Integer(i64),
    Float(Seq<char>),
    Str(Seq<char>),
    Array(Seq<ValueV>),
    Object(Seq<(Seq<char>, ValueV)>),
}

pub open spec fn value_view(v: &Value) -> ValueV
    decreases v,
{
    match v {
        Value::Null => ValueV::Null,
        Value::Bool(b) => ValueV::Bool(*b),
        Value::Integer(i) => ValueV::Integer(*i),
        Value::Float(t) => ValueV::Float(t@),
        Value::String(s) => ValueV::Str(s@),
        Value::Array(items) => ValueV::Array(value_items_view(items@)),
        Value::Object(fields) => ValueV::Object(value_fields_view(fields@)),
    }
}

pub open spec fn value_items_view(items: Seq<Value>) -> Seq<ValueV>
    decreases items,
{
    if items.len() == 0 {
        Seq::empty()
    } else {
        value_items_view(items.drop_last()).push(value_view(&items.last()))
    }
}

pub open spec fn value_fields_view(fields: Seq<(String, Value)>) -> Seq<(Seq<char>, ValueV)>
    decreases fields,
{
    if fields.len() == 0 {
        Seq::empty()
    } else {
        value_fields_view(fields.drop_last()).push((fields.last().0@, value_view(&fields.last().1)))
    }
}

impl View for Value {
    type V = ValueV;

    open spec fn view(&self) -> ValueV {
        value_view(self)
    }
}

/// The annotation that marks a float.
pub open spec fn float_type() -> Seq<char> {
    seq!['f', '6', '4']
}

/// A scalar as an argument; arrays and objects are none.
pub open spec fn prim_entry(v: ValueV) -> Option<Entry> {
    match v {
        ValueV::Null => Some(Entry::Arg { ty: None, value: Val::Null }),
        ValueV::Bool(b) => Some(Entry::Arg { ty: None, value: Val::Bool(b) }),
        ValueV::Integer(i) => Some(
            Entry::Arg { ty: None, value: Val::Num(int_text(i as int), Some(i)) },
        ),
        ValueV::Float(t) => Some(Entry::Arg { ty: Some(float_type()), value: Val::Num(t, None) }),
        ValueV::Str(s) => Some(Entry::Arg { ty: None, value: Val::Str(s) }),
        _ => None,
    }
}

/// Scalars as arguments, in order; `None` when one is no scalar.
pub open spec fn prim_entries(items: Seq<ValueV>) -> Option<Seq<Entry>>
    decreases items.len(),
{
    if items.len() == 0 {
        Some(Seq::empty())
    } else {
        match prim_entries(items.drop_last()) {
            Some(es) => match prim_entry(items.last()) {
                Some(e) => Some(es.push(e)),
                None => None,
            },
            None => None,
        }
    }
}

/// The node for `key`: an object as a block of children, an array as
/// arguments, a scalar as one argument.
pub open spec fn node_of(key: Seq<char>, v: ValueV) -> Option<Node>
    decreases v, 1nat,
{
    match v {
        ValueV::Object(fields) => match nodes_of(fields) {
            Some(ns) => Some(Node { ty: None, name: key, entries: Seq::empty(), children: Some(ns) }),
            None => None,
        },
        ValueV::Array(items) => match prim_entries(items) {
            Some(es) => Some(Node { ty: None, name: key, entries: es, children: None }),
            None => None,
        },
        _ => match prim_entry(v) {
            Some(e) => Some(Node { ty: None, name: key, entries: seq![e], children: None }),
            None => None,
        },
    }
}

/// The nodes of the fields of an object, in order.
pub open spec fn nodes_of(fields: Seq<(Seq<char>, ValueV)>) -> Option<Seq<Node>>
    decreases fields, 0nat,
{
    if fields.len() == 0 {
        Some(Seq::empty())
    } else {
        match nodes_of(fields.drop_last()) {
            Some(ns) => match node_of(fields.last().0, fields.last().1) {
                Some(n) => Some(ns.push(n)),
                None => None,
            },
            None => None,
        }
    }
}

/// The nodes of a document for a value; only an object has them.
pub open spec fn document_of(v: ValueV) -> Option<Seq<Node>> {
    match v {
        ValueV::Object(fields) => nodes_of(fields),
        _ => None,
    }
}

/// Whether a number has a float value: every keyword or decimal number
/// does; a prefixed one when its integer value fits in an `i64`.
pub open spec fn has_float(raw: Seq<char>, as_i64: Option<i64>) -> bool {
    let body = if raw.len() > 0 && (raw[0] == '+' || raw[0] == '-') {
        raw.drop_first()
    } else {
        raw
    };
    if raw.len() > 0 && raw[0] == '#' {
        true
    } else if body.len() >= 2 && body[0] == '0' && (body[1] == 'x' || body[1] == 'o' || body[1]
        == 'b') {
        as_i64 is Some
    } else {
        true
    }
}

/// The value of an argument; a property is none.
pub open spec fn entry_value(e: Entry) -> Option<ValueV> {
    match e {
        Entry::Prop { .. } => None,
        Entry::Arg { ty, value } => match value {
            Val::Null => Some(ValueV::Null),
            Val::Bool(b) => Some(ValueV::Bool(b)),
            Val::Str(s) => Some(ValueV::Str(s)),
            Val::Num(raw, i) => if ty == Some(float_type()) {
                if has_float(raw, i) {
                    Some(ValueV::Float(raw))
                } else {
                    None
                }
            } else {
                match i {
                    Some(x) => Some(ValueV::Integer(x)),
                    None => if has_float(raw, i) {
                        Some(ValueV::Float(raw))
                    } else {
                        None
                    },
                }
            },
        },
    }
}

pub open spec fn args_of(es: Seq<Entry>) -> Seq<Entry>
    decreases es.len(),
{
    if es.len() == 0 {
        Seq::empty()
    } else if es.last() is Arg {
        args_of(es.drop_last()).push(es.last())
    } else {
        args_of(es.drop_last())
    }
}

/// The values of arguments, in order; `None` when one has none.
pub open spec fn entry_values(es: Seq<Entry>) -> Option<Seq<ValueV>>
    decreases es.len(),
{
    if es.len() == 0 {
        Some(Seq::empty())
    } else {
        match entry_values(es.drop_last()) {
            Some(vs) => match entry_value(es.last()) {
                Some(v) => Some(vs.push(v)),
                None => None,
            },
            None => None,
        }
    }
}

/// The value of a node: null without arguments or children; an object of
/// its children; the value of a single argument; an array of several. A
/// node with both arguments and children has none.
pub open spec fn node_value(n: Node) -> Option<ValueV>
    decreases n, 1nat,
{
    let args = args_of(n.entries);
    match n.children {
        Some(cs) => if cs.len() > 0 {
            if args.len() == 0 {
                match fields_value(cs) {
                    Some(fs) => Some(ValueV::Object(fs)),
                    None => None,
                }
            } else {
                None
            }
        } else {
            plain_node_value(args)
        },
        None => plain_node_value(args),
    }
}

pub open spec fn plain_node_value(args: Seq<Entry>) -> Option<ValueV> {
    if args.len() == 0 {
        Some(ValueV::Null)
    } else if args.len() == 1 {
        entry_value(args[0])
    } else {
        match entry_values(args) {
            Some(vs) => Some(ValueV::Array(vs)),
            None => None,
        }
    }
}

/// The fields for nodes: each node's name and value, in order.
pub open spec fn fields_value(ns: Seq<Node>) -> Option<Seq<(Seq<char>, ValueV)>>
    decreases ns, 0nat,
{
    if ns.len() == 0 {
        Some(Seq::empty())
    } else {
        match fields_value(ns.drop_last()) {
            Some(fs) => match node_value(ns.last()) {
                Some(v) => Some(fs.push((ns.last().name, v))),
                None => None,
            },
            None => None,
        }
    }
}

/// The error of a conversion: an `UnexpectedEof` at the first position,
/// line 1, column 1, since a value has no text to point into.
pub open spec fn conv_error() -> KdlError {
    KdlError { line: 1, col: 1, kind: KdlErrorKind::UnexpectedEof }
}

fn make_conv_error() -> (r: KdlError)
    ensures
        r == conv_error(),
{
    KdlError { line: 1, col: 1, kind: KdlErrorKind::UnexpectedEof }
}

fn float_type_text() -> (r: String)
    ensures
        r@ == float_type(),
{
    let t = "f64";
    proof {
        reveal_strlit("f64");
        assert(t@ =~= float_type());
    }
    t.to_owned()
}

/// A scalar as an argument; an array or object is an error.
fn primitive_to_argument(value: &Value) -> (r: Result<KdlEntry, KdlError>)
    ensures
        match prim_entry(value@) {
            Some(e) => r matches Ok(x) && x@ == e,
            None => r == Err::<KdlEntry, KdlError>(conv_error()),
        },
{
    match value {
        Value::Null => Ok(KdlEntry::Argument { ty: None, value: KdlValue::Null }),
        Value::Bool(b) => Ok(KdlEntry::Argument { ty: None, value: KdlValue::Bool(*b) }),
        Value::Integer(i) => Ok(
            KdlEntry::Argument { ty: None, value: KdlValue::Number(int_number(*i)) },
        ),
        Value::Float(t) => Ok(
            KdlEntry::Argument {
                ty: Some(float_type_text()),
                value: KdlValue::Number(KdlNumber { raw: t.clone(), as_i64: None }),
            },
        ),
        Value::String(s) => Ok(KdlEntry::Argument { ty: None, value: KdlValue::String(s.clone()) }),
        Value::Array(_) => Err(make_conv_error()),
        Value::Object(_) => Err(make_conv_error()),
    }
}

proof fn lemma_value_items_view(items: Seq<Value>)
    ensures
        value_items_view(items).len() == items.len(),
        forall|i: int| 0 <= i < items.len() ==> #[trigger] value_items_view(items)[i] == items[i]@,
    decreases items.len(),
{
    if items.len() > 0 {
        lemma_value_items_view(items.drop_last());
    }
}

proof fn lemma_value_fields_view(fields: Seq<(String, Value)>)
    ensures
        value_fields_view(fields).len() == fields.len(),
        forall|i: int|
            0 <= i < fields.len() ==> #[trigger] value_fields_view(fields)[i] == (
                fields[i].0@,
                fields[i].1@,
            ),
    decreases fields.len(),
{
    if fields.len() > 0 {
        lemma_value_fields_view(fields.drop_last());
    }
}

fn items_to_entries(items: &Vec<Value>) -> (r: Result<Vec<KdlEntry>, KdlError>)
    ensures
        match prim_entries(value_items_view(items@)) {
            Some(es) => r matches Ok(x) && entries_view(x@) == es,
            None => r == Err::<Vec<KdlEntry>, KdlError>(conv_error()),
        },
{
    let ghost iv = value_items_view(items@);
    proof {
        lemma_value_items_view(items@);
    }
    let mut out: Vec<KdlEntry> = Vec::new();
    let mut i: usize = 0;
    proof {
        assert(iv.take(0) =~= Seq::<ValueV>::empty());
        assert(entries_view(out@) =~= Seq::<Entry>::empty());
    }
    while i < items.len()
        invariant
            iv == value_items_view(items@),
            iv.len() == items@.len(),
            forall|k: int| 0 <= k < items@.len() ==> #[trigger] iv[k] == items@[k]@,
            0 <= i <= items@.len(),
            prim_entries(iv.take(i as int)) == Some(entries_view(out@)),
        decreases items@.len() - i,
    {
        proof {
            assert(iv.take(i + 1).drop_last() =~= iv.take(i as int));
            assert(iv.take(i + 1).last() == items@[i as int]@);
        }
        match primitive_to_argument(&items[i]) {
            Ok(e) => {
                let ghost before = out@;
                out.push(e);
                proof {
                    assert(entries_view(out@) =~= entries_view(before).push(e@));
                }
            },
            Err(err) => {
                proof {
                    lemma_prim_entries_none(iv, i as int);
                }
                return Err(err);
            },
        }
        i = i + 1;
    }
    proof {
        assert(iv.take(items@.len() as int) =~= iv);
    }
    Ok(out)
}

proof fn lemma_prim_entries_none(vs: Seq<ValueV>, i: int)
    requires
        0 <= i < vs.len(),
        prim_entries(vs.take(i + 1)) is None,
    ensures
        prim_entries(vs) is None,
    decreases vs.len() - i,
{
    if i + 1 < vs.len() {
        assert(vs.drop_last().take(i + 1) =~= vs.take(i + 1));
        lemma_prim_entries_none(vs.drop_last(), i);
    } else {
        assert(vs.take(i + 1) =~= vs);
    }
}

proof fn lemma_nodes_of_none(fs: Seq<(Seq<char>, ValueV)>, i: int)
    requires
        0 <= i < fs.len(),
        nodes_of(fs.take(i + 1)) is None,
    ensures
        nodes_of(fs) is None,
    decreases fs.len() - i,
{
    if i + 1 < fs.len() {
        assert(fs.drop_last().take(i + 1) =~= fs.take(i + 1));
        lemma_nodes_of_none(fs.drop_last(), i);
    } else {
        assert(fs.take(i + 1) =~= fs);
    }
}

/// The node for `key`.
fn value_to_kdl_node(key: &str, value: &Value) -> (r: Result<KdlNode, KdlError>)
    ensures
        match node_of(key@, value@) {
            Some(n) => r matches Ok(x) && x@ == n,
            None => r == Err::<KdlNode, KdlError>(conv_error()),
        },
    decreases value,
{
    match value {
        Value::Object(fields) => {
            proof {
                assert(decreases_to!(value => fields));
            }
            match fields_to_nodes(fields) {
                Ok(children) => {
                    let es: Vec<KdlEntry> = Vec::new();
                    proof {
                        assert(entries_view(es@) =~= Seq::<Entry>::empty());
                    }
                    Ok(KdlNode { ty: None, name: key.to_owned(), entries: es, children: Some(children) })
                },
                Err(e) => Err(e),
            }
        },
        Value::Array(items) => match items_to_entries(items) {
            Ok(es) => Ok(KdlNode { ty: None, name: key.to_owned(), entries: es, children: None }),
            Err(e) => Err(e),
        },
        _ => match primitive_to_argument(value) {
            Ok(e) => {
                let mut es: Vec<KdlEntry> = Vec::new();
                es.push(e);
                proof {
                    assert(entries_view(es@) =~= seq![e@]);
                }
                Ok(KdlNode { ty: None, name: key.to_owned(), entries: es, children: None })
            },
            Err(err) => Err(err),
        },
    }
}

fn fields_to_nodes(fields: &Vec<(String, Value)>) -> (r: Result<Vec<KdlNode>, KdlError>)
    ensures
        match nodes_of(value_fields_view(fields@)) {
            Some(ns) => r matches Ok(x) && nodes_view(x@) == ns,
            None => r == Err::<Vec<KdlNode>, KdlError>(conv_error()),
        },
    decreases fields,
{
    let ghost fv = value_fields_view(fields@);
    proof {
        lemma_value_fields_view(fields@);
    }
    let mut out: Vec<KdlNode> = Vec::new();
    let mut i: usize = 0;
    proof {
        assert(fv.take(0) =~= Seq::<(Seq<char>, ValueV)>::empty());
        assert(nodes_view(out@) =~= Seq::<Node>::empty());
    }
    while i < fields.len()
        invariant
            fv == value_fields_view(fields@),
            fv.len() == fields@.len(),
            forall|k: int| 0 <= k < fields@.len() ==> #[trigger] fv[k] == (fields@[k].0@, fields@[k].1@),
            0 <= i <= fields@.len(),
            nodes_of(fv.take(i as int)) == Some(nodes_view(out@)),
        decreases fields@.len() - i,
    {
        proof {
            assert(fv.take(i + 1).drop_last() =~= fv.take(i as int));
            assert(fv.take(i + 1).last() == fv[i as int]);
            assert(decreases_to!(fields => fields@[i as int].1));
        }
        match value_to_kdl_node(fields[i].0.as_str(), &fields[i].1) {
            Ok(n) => {
                let ghost before = out@;
                out.push(n);
                proof {
                    lemma_nodes_view_push(before, n);
                }
            },
            Err(err) => {
                proof {
                    lemma_nodes_of_none(fv, i as int);
                }
                return Err(err);
            },
        }
        i = i + 1;
    }
    proof {
        assert(fv.take(fields@.len() as int) =~= fv);
    }
    Ok(out)
}

/// A document for an object value: each field a node named by its key.
/// Any other value is an error.
pub fn value_to_kdl_document(value: &Value) -> (r: Result<KdlDocument, KdlError>)
    ensures
        match document_of(value@) {
            Some(ns) => r matches Ok(d) && nodes_view(d.nodes@) == ns,
            None => r == Err::<KdlDocument, KdlError>(conv_error()),
        },
        r matches Err(e) ==> e.line >= 1 && e.col >= 1,
{
    match value {
        Value::Object(fields) => match fields_to_nodes(fields) {
            Ok(nodes) => Ok(KdlDocument { nodes }),
            Err(e) => Err(e),
        },
        _ => Err(make_conv_error()),
    }
}

fn starts_with_prefix_letter(body: &Vec<char>, from: usize) -> (r: bool)
    requires
        from <= body@.len(),
    ensures
        r == (body@.skip(from as int).len() >= 2 && body@.skip(from as int)[0] == '0' && (
        body@.skip(from as int)[1] == 'x' || body@.skip(from as int)[1] == 'o' || body@.skip(
            from as int,
        )[1] == 'b')),
{
    body.len() - from >= 2 && body[from] == '0' && (body[from + 1] == 'x' || body[from + 1] == 'o'
        || body[from + 1] == 'b')
}

fn has_float_exec(raw: &str, as_i64: Option<i64>) -> (r: bool)
    ensures
        r == has_float(raw@, as_i64),
{
    let cs = str_chars(raw);
    if cs.len() > 0 && cs[0] == '#' {
        return true;
    }
    let from: usize = if cs.len() > 0 && (cs[0] == '+' || cs[0] == '-') {
        1
    } else {
        0
    };
    proof {
        if from == 1 {
            assert(cs@.skip(1) =~= cs@.drop_first());
        } else {
            assert(cs@.skip(0) =~= cs@);
        }
    }
    if starts_with_prefix_letter(&cs, from) {
        as_i64.is_some()
    } else {
        true
    }
}

/// The value of an argument; a property is an error.
fn kdl_entry_to_value(entry: &KdlEntry) -> (r: Result<Value, KdlError>)
    ensures
        match entry_value(entry@) {
            Some(v) => r matches Ok(x) && x@ == v,
            None => r == Err::<Value, KdlError>(conv_error()),
        },
{
    match entry {
        KdlEntry::Property { .. } => Err(make_conv_error()),
        KdlEntry::Argument { ty, value } => match value {
            KdlValue::Null => Ok(Value::Null),
            KdlValue::Bool(b) => Ok(Value::Bool(*b)),
            KdlValue::String(s) => Ok(Value::String(s.clone())),
            KdlValue::Number(n) => {
                let annotated = match ty {
                    Some(t) => {
                        let ft = float_type_text();
                        crate::text::str_eq(t.as_str(), ft.as_str())
                    },
                    None => false,
                };
                if annotated {
                    if has_float_exec(n.raw.as_str(), n.as_i64) {
                        Ok(Value::Float(n.raw.clone()))
                    } else {
                        Err(make_conv_error())
                    }
                } else {
                    match n.as_i64 {
                        Some(i) => Ok(Value::Integer(i)),
                        None => if has_float_exec(n.raw.as_str(), n.as_i64) {
                            Ok(Value::Float(n.raw.clone()))
                        } else {
                            Err(make_conv_error())
                        },
                    }
                }
            },
        },
    }
}

proof fn lemma_entry_values_none(es: Seq<Entry>, i: int)
    requires
        0 <= i < es.len(),
        entry_values(es.take(i + 1)) is None,
    ensures
        entry_values(es) is None,
    decreases es.len() - i,
{
    if i + 1 < es.len() {
        assert(es.drop_last().take(i + 1) =~= es.take(i + 1));
        lemma_entry_values_none(es.drop_last(), i);
    } else {
        assert(es.take(i + 1) =~= es);
    }
}

proof fn lemma_fields_value_none(ns: Seq<Node>, i: int)
    requires
        0 <= i < ns.len(),
        fields_value(ns.take(i + 1)) is None,
    ensures
        fields_value(ns) is None,
    decreases ns.len() - i,
{
    if i + 1 < ns.len() {
        assert(ns.drop_last().take(i + 1) =~= ns.take(i + 1));
        lemma_fields_value_none(ns.drop_last(), i);
    } else {
        assert(ns.take(i + 1) =~= ns);
    }
}

/// The positions of the arguments among `es`, in order.
fn argument_positions(es: &Vec<KdlEntry>) -> (r: Vec<usize>)
    ensures
        r@.len() == args_of(entries_view(es@)).len(),
        forall|k: int|
            0 <= k < r@.len() ==> #[trigger] r@[k] < es@.len() && args_of(entries_view(es@))[k]
                == es@[r@[k] as int]@,
{
    let ghost ev = entries_view(es@);
    let mut out: Vec<usize> = Vec::new();
    let mut i: usize = 0;
    proof {
        assert(ev.take(0) =~= Seq::<Entry>::empty());
    }
    while i < es.len()
        invariant
            ev == entries_view(es@),
            0 <= i <= es@.len(),
            out@.len() == args_of(ev.take(i as int)).len(),
            forall|k: int|
                0 <= k < out@.len() ==> #[trigger] out@[k] < es@.len() && args_of(
                    ev.take(i as int),
                )[k] == es@[out@[k] as int]@,
        decreases es@.len() - i,
    {
        proof {
            assert(ev.take(i + 1).drop_last() =~= ev.take(i as int));
            assert(ev.take(i + 1).last() == ev[i as int]);
            assert(ev[i as int] == es@[i as int]@);
        }
        let ghost before = out@;
        let ghost prev = args_of(ev.take(i as int));
        if let KdlEntry::Argument { .. } = &es[i] {
            out.push(i);
            proof {
                assert(args_of(ev.take(i + 1)) == prev.push(ev[i as int]));
                assert forall|k: int| 0 <= k < out@.len() implies #[trigger] out@[k] < es@.len()
                    && args_of(ev.take(i + 1))[k] == es@[out@[k] as int]@ by {
                    if k < before.len() {
                        assert(out@[k] == before[k]);
                    }
                }
            }
        } else {
            proof {
                assert(args_of(ev.take(i + 1)) == prev);
            }
        }
        i = i + 1;
    }
    proof {
        assert(ev.take(es@.len() as int) =~= ev);
    }
    out
}

/// The value of a node.
fn kdl_node_to_value(node: &KdlNode) -> (r: Result<Value, KdlError>)
    ensures
        match node_value(node@) {
            Some(v) => r matches Ok(x) && x@ == v,
            None => r == Err::<Value, KdlError>(conv_error()),
        },
    decreases node,
{
    let args = argument_positions(&node.entries);
    let ghost av = args_of(entries_view(node.entries@));
    let has_children = match &node.children {
        Some(c) => c.len() > 0,
        None => false,
    };
    proof {
        if let Some(c) = &node.children {
            lemma_nodes_view(c@);
        }
    }
    if has_children {
        if args.len() > 0 {
            return Err(make_conv_error());
        }
        match &node.children {
            Some(cs) => {
                proof {
                    assert(decreases_to!(node => node.children));
                }
                match nodes_to_fields(cs) {
                    Ok(fields) => Ok(Value::Object(fields)),
                    Err(e) => Err(e),
                }
            },
            None => Err(make_conv_error()),
        }
    } else if args.len() == 0 {
        Ok(Value::Null)
    } else if args.len() == 1 {
        kdl_entry_to_value(&node.entries[args[0]])
    } else {
        let mut items: Vec<Value> = Vec::new();
        let mut i: usize = 0;
        proof {
            assert(av.take(0) =~= Seq::<Entry>::empty());
            assert(value_items_view(items@) =~= Seq::<ValueV>::empty());
        }
        while i < args.len()
            invariant
                av == args_of(entries_view(node.entries@)),
                args@.len() == av.len(),
                forall|k: int|
                    0 <= k < args@.len() ==> #[trigger] args@[k] < node.entries@.len() && av[k]
                        == node.entries@[args@[k] as int]@,
                0 <= i <= args@.len(),
                entry_values(av.take(i as int)) == Some(value_items_view(items@)),
            decreases args@.len() - i,
        {
            proof {
                assert(av.take(i + 1).drop_last() =~= av.take(i as int));
                assert(av.take(i + 1).last() == av[i as int]);
            }
            match kdl_entry_to_value(&node.entries[args[i]]) {
                Ok(v) => {
                    let ghost before = items@;
                    items.push(v);
                    proof {
                        assert(items@.drop_last() =~= before);
                    }
                },
                Err(e) => {
                    proof {
                        lemma_entry_values_none(av, i as int);
                    }
                    return Err(e);
                },
            }
            i = i + 1;
        }
        proof {
            assert(av.take(args@.len() as int) =~= av);
        }
        Ok(Value::Array(items))
    }
}

fn nodes_to_fields(ns: &Vec<KdlNode>) -> (r: Result<Vec<(String, Value)>, KdlError>)
    ensures
        match fields_value(nodes_view(ns@)) {
            Some(fs) => r matches Ok(x) && value_fields_view(x@) == fs,
            None => r == Err::<Vec<(String, Value)>, KdlError>(conv_error()),
        },
    decreases ns,
{
    let ghost nv = nodes_view(ns@);
    proof {
        lemma_nodes_view(ns@);
    }
    let mut out: Vec<(String, Value)> = Vec::new();
    let mut i: usize = 0;
    proof {
        assert(nv.take(0) =~= Seq::<Node>::empty());
        assert(value_fields_view(out@) =~= Seq::<(Seq<char>, ValueV)>::empty());
    }
    while i < ns.len()
        invariant
            nv == nodes_view(ns@),
            nv.len() == ns@.len(),
            forall|k: int| 0 <= k < ns@.len() ==> #[trigger] nv[k] == ns@[k]@,
            0 <= i <= ns@.len(),
            fields_value(nv.take(i as int)) == Some(value_fields_view(out@)),
        decreases ns@.len() - i,
    {
        proof {
            assert(nv.take(i + 1).drop_last() =~= nv.take(i as int));
            assert(nv.take(i + 1).last() == ns@[i as int]@);
            assert(decreases_to!(ns => ns@[i as int]));
        }
        match kdl_node_to_value(&ns[i]) {
            Ok(v) => {
                let f = (ns[i].name.clone(), v);
                let ghost before = out@;
                out.push(f);
                proof {
                    assert(out@.drop_last() =~= before);
                }
            },
            Err(e) => {
                proof {
                    lemma_fields_value_none(nv, i as int);
                }
                return Err(e);
            },
        }
        i = i + 1;
    }
    proof {
        assert(nv.take(ns@.len() as int) =~= nv);
    }
    Ok(out)
}

/// The value of a document: an object whose fields are its nodes, each
/// named by the node's name.
pub fn kdl_document_to_value(doc: &KdlDocument) -> (r: Result<Value, KdlError>)
    ensures
        match fields_value(nodes_view(doc.nodes@)) {
            Some(fs) => r matches Ok(x) && x@ == ValueV::Object(fs),
            None => r == Err::<Value, KdlError>(conv_error()),
        },
{
    match nodes_to_fields(&doc.nodes) {
        Ok(fields) => Ok(Value::Object(fields)),
        Err(e) => Err(e),
    }
}

/// A value that a document holds as it is: nested objects have fields,
/// arrays at least two scalar items, floats a text that has a float value.
pub open spec fn well_shaped(v: ValueV) -> bool
    decreases v, 1nat,
{
    match v {
        ValueV::Float(t) => has_float(t, None),
        ValueV::Array(items) => items.len() >= 2 && forall|i: int|
            0 <= i < items.len() ==> scalar_shaped(#[trigger] items[i]),
        ValueV::Object(fields) => fields.len() > 0 && fields_shaped(fields),
        _ => true,
    }
}

pub open spec fn scalar_shaped(v: ValueV) -> bool {
    match v {
        ValueV::Float(t) => has_float(t, None),
        ValueV::Array(_) => false,
        ValueV::Object(_) => false,
        _ => true,
    }
}

pub open spec fn fields_shaped(fields: Seq<(Seq<char>, ValueV)>) -> bool
    decreases fields, 0nat,
{
    if fields.len() == 0 {
        true
    } else {
        fields_shaped(fields.drop_last()) && well_shaped(fields.last().1)
    }
}

proof fn lemma_scalar_roundtrip(v: ValueV)
    requires
        scalar_shaped(v),
    ensures
        prim_entry(v) matches Some(e) && e is Arg && entry_value(e) == Some(v),
{
}

proof fn lemma_prim_entries_roundtrip(items: Seq<ValueV>)
    requires
        forall|i: int| 0 <= i < items.len() ==> scalar_shaped(#[trigger] items[i]),
    ensures
        prim_entries(items) matches Some(es) && es.len() == items.len() && args_of(es) == es
            && entry_values(es) == Some(items),
    decreases items.len(),
{
    if items.len() > 0 {
        let prev = items.drop_last();
        assert forall|i: int| 0 <= i < prev.len() implies scalar_shaped(#[trigger] prev[i]) by {
            assert(prev[i] == items[i]);
        }
        lemma_prim_entries_roundtrip(prev);
        lemma_scalar_roundtrip(items.last());
        let es = prim_entries(items);
        let pes = prim_entries(prev)->Some_0;
        assert(es == Some(pes.push(prim_entry(items.last())->Some_0)));
        let full = es->Some_0;
        assert(full.drop_last() =~= pes);
        assert(entry_values(full) == Some(items.drop_last().push(items.last())));
        assert(items.drop_last().push(items.last()) =~= items);
    } else {
        assert(prim_entries(items) == Some(Seq::<Entry>::empty()));
    }
}

proof fn lemma_node_roundtrip(key: Seq<char>, v: ValueV)
    requires
        well_shaped(v),
    ensures
        node_of(key, v) matches Some(n) && n.name == key && node_value(n) == Some(v),
    decreases v, 1nat,
{
    match v {
        ValueV::Object(fields) => {
            lemma_fields_roundtrip(fields);
            let ns = nodes_of(fields)->Some_0;
            let n = node_of(key, v)->Some_0;
            assert(args_of(n.entries) == Seq::<Entry>::empty());
        },
        ValueV::Array(items) => {
            lemma_prim_entries_roundtrip(items);
        },
        _ => {
            lemma_scalar_roundtrip(v);
            let e = prim_entry(v)->Some_0;
            let n = node_of(key, v)->Some_0;
            assert(n.entries == seq![e]);
            assert(seq![e].drop_last() =~= Seq::<Entry>::empty());
            assert(seq![e].last() == e);
            assert(args_of(Seq::<Entry>::empty()) == Seq::<Entry>::empty());
            assert(args_of(seq![e]) == args_of(seq![e].drop_last()).push(e));
            assert(args_of(seq![e]) =~= seq![e]);
        },
    }
}

proof fn lemma_fields_roundtrip(fields: Seq<(Seq<char>, ValueV)>)
    requires
        fields_shaped(fields),
    ensures
        nodes_of(fields) matches Some(ns) && ns.len() == fields.len() && fields_value(ns) == Some(
            fields,
        ),
    decreases fields, 0nat,
{
    if fields.len() > 0 {
        let prev = fields.drop_last();
        lemma_fields_roundtrip(prev);
        lemma_node_roundtrip(fields.last().0, fields.last().1);
        let pns = nodes_of(prev)->Some_0;
        let n = node_of(fields.last().0, fields.last().1)->Some_0;
        let ns = pns.push(n);
        assert(nodes_of(fields) == Some(ns));
        assert(ns.drop_last() =~= pns);
        assert(fields_value(ns) == Some(prev.push((n.name, fields.last().1))));
        assert(prev.push((fields.last().0, fields.last().1)) =~= fields);
    } else {
        assert(nodes_of(fields) == Some(Seq::<Node>::empty()));
    }
}

/// Reading back the document written for an object gives the object, when
/// its nested objects have fields, its arrays at least two scalar items,
/// and its floats a text that has a float value.
pub proof fn law_value_roundtrip(v: ValueV)
    requires
        v is Object,
        fields_shaped(v->Object_0),
    ensures
        document_of(v) matches Some(ns) && fields_value(ns) == Some(v->Object_0),
{
    lemma_fields_roundtrip(v->Object_0);
}

} // verus!
