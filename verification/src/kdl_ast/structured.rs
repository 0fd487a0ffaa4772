//! A KDL node seen as a structured entity: its kind is its name read as a
//! namespace path, its identifier its first string argument; attributes are
//! properties or, failing those, children with one argument.
use vstd::prelude::*;
use crate::ast::{
    lemma_mapping_view_push, lemma_sequence_view_push, mapping_view, sequence_view, Structured,
    StructuredField, StructuredNumber, StructuredValue,
};
use crate::kdl::value::{
    arg_values, children_of, first_arg_value, first_named, prop_value, KdlEntry, KdlNode, KdlValue,
};
use super::cross_ref::{cross_ref_of, opt_view, CrossRef, CrossRefParseError};
use super::nsid::{nsid_of, NsidPath};

verus! {

/// A kind and an identifier, each a namespace path.
#[derive(Debug, Clone, PartialEq, Eq)]
pub struct StructuredName {
    pub kind: Option<NsidPath>,
    pub identifier: NsidPath,
}

/// A structured view of a KDL node.
#[derive(Debug, Clone, Copy)]
pub struct StructuredNode<'a> {
    node: &'a KdlNode,
}

/// The first string argument of a node.
pub open spec fn first_string(n: KdlNode) -> Option<Seq<char>> {
    match first_arg_value(n.entries@) {
        Some(KdlValue::String(t)) => Some(t@),
        _ => None,
    }
}

/// `r` is what parsing `s` as a cross reference gives.
pub open spec fn is_cross_ref_of(r: Result<CrossRef, CrossRefParseError>, s: Seq<char>) -> bool {
    match cross_ref_of(s) {
        Ok((p, f)) => r matches Ok(x) && x.path@ == p && opt_view(x.fragment) == f,
        Err(e) => r == Err::<CrossRef, CrossRefParseError>(e),
    }
}

/// The nodes whose name, read as a namespace path, is `kind`, in order.
pub open spec fn nodes_of_kind(cs: Seq<KdlNode>, kind: Seq<Seq<char>>) -> Seq<KdlNode>
    decreases cs.len(),
{
    if cs.len() == 0 {
        Seq::empty()
    } else if nsid_of(cs.last().name@) == kind {
        nodes_of_kind(cs.drop_last(), kind).push(cs.last())
    } else {
        nodes_of_kind(cs.drop_last(), kind)
    }
}

/// The texts of the string arguments, in order.
pub open spec fn string_arg_texts(es: Seq<KdlEntry>) -> Seq<Seq<char>>
    decreases es.len(),
{
    if es.len() == 0 {
        Seq::empty()
    } else {
        match es.last() {
            KdlEntry::Argument { value: KdlValue::String(t), .. } => string_arg_texts(
                es.drop_last(),
            ).push(t@),
            _ => string_arg_texts(es.drop_last()),
        }
    }
}

/// The string value of the first property named `key` that holds a string.
pub open spec fn string_prop_text(es: Seq<KdlEntry>, key: Seq<char>) -> Option<Seq<char>>
    decreases es.len(),
{
    if es.len() == 0 {
        None
    } else {
        match es[0] {
            KdlEntry::Property { key: k, value: KdlValue::String(t), .. } => if k@ == key {
                Some(t@)
            } else {
                string_prop_text(es.drop_first(), key)
            },
            _ => string_prop_text(es.drop_first(), key),
        }
    }
}

/// The structured form of a KDL value: a number by its text.
pub open spec fn kdl_structured(v: KdlValue) -> Structured {
    match v {
        KdlValue::String(s) => Structured::Str(s@),
        KdlValue::Number(n) => Structured::Number(n.raw@),
        KdlValue::Bool(b) => Structured::Bool(b),
        KdlValue::Null => Structured::Null,
    }
}

/// The structured form of a node's entries: its properties in order, then,
/// when it has arguments, their values under `$args`.
pub open spec fn node_structured(es: Seq<KdlEntry>) -> Structured {
    let props = prop_fields(es);
    let args = arg_values(es).map_values(|v: KdlValue| kdl_structured(v));
    if args.len() > 0 {
        Structured::Mapping(props.push((seq!['$', 'a', 'r', 'g', 's'], Structured::Sequence(args))))
    } else {
        Structured::Mapping(props)
    }
}

/// The properties of `es`, in order, as structured fields.
pub open spec fn prop_fields(es: Seq<KdlEntry>) -> Seq<(Seq<char>, Structured)>
    decreases es.len(),
{
    if es.len() == 0 {
        Seq::empty()
    } else {
        match es.last() {
            KdlEntry::Property { key, value, .. } => prop_fields(es.drop_last()).push(
                (key@, kdl_structured(value)),
            ),
            _ => prop_fields(es.drop_last()),
        }
    }
}

/// The structured form of a KDL value.
pub fn kdl_value_to_structured(value: &KdlValue) -> (r: StructuredValue)
    ensures
        r@ == kdl_structured(*value),
{
    match value {
        KdlValue::String(s) => StructuredValue::String(s.clone()),
        KdlValue::Number(n) => StructuredValue::Number(StructuredNumber::from_parts(n.raw.clone())),
        KdlValue::Bool(b) => StructuredValue::Bool(*b),
        KdlValue::Null => StructuredValue::Null,
    }
}

impl<'a> StructuredNode<'a> {
    /// The node viewed.
    pub closed spec fn node_spec(&self) -> KdlNode {
        *self.node
    }

    /// The structured view of `node`.
    pub fn from_kdl(node: &'a KdlNode) -> (r: Self)
        ensures
            r.node_spec() == *node,
    {
        StructuredNode { node }
    }

    /// The node viewed.
    pub fn as_kdl(&self) -> (r: &'a KdlNode)
        ensures
            *r == self.node_spec(),
    {
        self.node
    }

    /// The kind: the node's name read as a namespace path.
    pub fn kind(&self) -> (r: NsidPath)
        ensures
            r@ == nsid_of(self.node_spec().name@),
    {
        self.node_name_as_nsid()
    }

    /// The identifier: the first string argument read as a namespace path.
    pub fn identifier(&self) -> (r: Option<NsidPath>)
        ensures
            match first_string(self.node_spec()) {
                Some(t) => r matches Some(p) && p@ == nsid_of(t),
                None => r is None,
            },
    {
        self.first_arg_as_nsid()
    }

    /// The node's name read as a namespace path.
    pub fn node_name_as_nsid(&self) -> (r: NsidPath)
        ensures
            r@ == nsid_of(self.node_spec().name@),
    {
        NsidPath::parse(self.node.name())
    }

    /// The first string argument read as a namespace path.
    pub fn first_arg_as_nsid(&self) -> (r: Option<NsidPath>)
        ensures
            match first_string(self.node_spec()) {
                Some(t) => r matches Some(p) && p@ == nsid_of(t),
                None => r is None,
            },
    {
        match self.node.first_string_arg() {
            Some(t) => Some(NsidPath::parse(t)),
            None => None,
        }
    }

    /// The node's type annotation.
    pub fn type_annotation(&self) -> (r: Option<&'a str>)
        ensures
            match self.node_spec().ty {
                Some(t) => r matches Some(x) && x@ == t@,
                None => r is None,
            },
    {
        self.node.ty()
    }

    /// Form x: the name is the kind, the first string argument the
    /// identifier (empty without one).
    pub fn structured_name_form_x(&self) -> (r: StructuredName)
        ensures
            r.kind matches Some(k) && k@ == nsid_of(self.node_spec().name@),
            r.identifier@ == (match first_string(self.node_spec()) {
                Some(t) => nsid_of(t),
                None => Seq::empty(),
            }),
    {
        let identifier = match self.first_arg_as_nsid() {
            Some(p) => p,
            None => NsidPath::new(),
        };
        StructuredName { kind: Some(self.node_name_as_nsid()), identifier }
    }

    /// Form y: no kind; the name is the identifier.
    pub fn structured_name_form_y(&self) -> (r: StructuredName)
        ensures
            r.kind is None,
            r.identifier@ == nsid_of(self.node_spec().name@),
    {
        StructuredName { kind: None, identifier: self.node_name_as_nsid() }
    }

    /// Form x when the node has a string argument, else form y.
    pub fn structured_name(&self) -> (r: StructuredName)
        ensures
            match first_string(self.node_spec()) {
                Some(t) => r.kind matches Some(k) && k@ == nsid_of(self.node_spec().name@)
                    && r.identifier@ == nsid_of(t),
                None => r.kind is None && r.identifier@ == nsid_of(self.node_spec().name@),
            },
    {
        if self.node.first_string_arg().is_some() {
            self.structured_name_form_x()
        } else {
            self.structured_name_form_y()
        }
    }

    /// The children, in order.
    pub fn children(&self) -> (r: Vec<StructuredNode<'a>>)
        ensures
            r@.len() == children_of(self.node_spec()).len(),
            forall|i: int|
                0 <= i < r@.len() ==> (#[trigger] r@[i]).node_spec() == children_of(
                    self.node_spec(),
                )[i],
    {
        let mut out: Vec<StructuredNode<'a>> = Vec::new();
        match &self.node.children {
            Some(cs) => {
                let mut i: usize = 0;
                while i < cs.len()
                    invariant
                        children_of(self.node_spec()) == cs@,
                        0 <= i <= cs@.len(),
                        out@.len() == i,
                        forall|k: int| 0 <= k < i ==> (#[trigger] out@[k]).node_spec() == cs@[k],
                    decreases cs@.len() - i,
                {
                    out.push(StructuredNode { node: &cs[i] });
                    i = i + 1;
                }
            },
            None => {},
        }
        out
    }

    /// The children whose name, read as a namespace path, is `kind`, in
    /// order.
    pub fn find_child_kind(&self, kind: &NsidPath) -> (r: Vec<StructuredNode<'a>>)
        ensures
            r@.map_values(|x: StructuredNode<'a>| x.node_spec()) == nodes_of_kind(
                children_of(self.node_spec()),
                kind@,
            ),
    {
        let all = self.children();
        let ghost cs = children_of(self.node_spec());
        let mut out: Vec<StructuredNode<'a>> = Vec::new();
        let mut i: usize = 0;
        proof {
            assert(cs.take(0) =~= Seq::<KdlNode>::empty());
            assert(out@.map_values(|x: StructuredNode<'a>| x.node_spec()) =~= nodes_of_kind(
                cs.take(0),
                kind@,
            ));
        }
        while i < all.len()
            invariant
                cs == children_of(self.node_spec()),
                all@.len() == cs.len(),
                forall|k: int| 0 <= k < all@.len() ==> (#[trigger] all@[k]).node_spec() == cs[k],
                0 <= i <= all@.len(),
                out@.map_values(|x: StructuredNode<'a>| x.node_spec()) == nodes_of_kind(
                    cs.take(i as int),
                    kind@,
                ),
            decreases all@.len() - i,
        {
            let child = all[i];
            let ghost before = out@;
            proof {
                assert(cs.take(i + 1).drop_last() =~= cs.take(i as int));
                assert(cs.take(i + 1).last() == cs[i as int]);
            }
            if child.node_name_as_nsid().same_as(kind) {
                out.push(child);
                proof {
                    assert(out@.map_values(|x: StructuredNode<'a>| x.node_spec()) =~= before.map_values(
                        |x: StructuredNode<'a>| x.node_spec(),
                    ).push(cs[i as int]));
                }
            } else {
                proof {
                    assert(out@ == before);
                }
            }
            i = i + 1;
        }
        proof {
            assert(cs.take(cs.len() as int) =~= cs);
        }
        out
    }

    /// The first argument read as a cross reference, when it is a string.
    pub fn cross_ref_arg(&self) -> (r: Option<Result<CrossRef, CrossRefParseError>>)
        ensures
            match first_string(self.node_spec()) {
                Some(t) => r matches Some(x) && is_cross_ref_of(x, t),
                None => r is None,
            },
    {
        match self.node.first_string_arg() {
            Some(t) => Some(CrossRef::parse(t)),
            None => None,
        }
    }

    /// Every string argument read as a cross reference, in order.
    pub fn cross_ref_string_args(&self) -> (r: Vec<Result<CrossRef, CrossRefParseError>>)
        ensures
            r@.len() == string_arg_texts(self.node_spec().entries@).len(),
            forall|i: int|
                0 <= i < r@.len() ==> is_cross_ref_of(
                    #[trigger] r@[i],
                    string_arg_texts(self.node_spec().entries@)[i],
                ),
    {
        let es = &self.node.entries;
        let mut out: Vec<Result<CrossRef, CrossRefParseError>> = Vec::new();
        let mut i: usize = 0;
        proof {
            assert(es@.take(0) =~= Seq::<KdlEntry>::empty());
        }
        while i < es.len()
            invariant
                es@ == self.node_spec().entries@,
                0 <= i <= es@.len(),
                out@.len() == string_arg_texts(es@.take(i as int)).len(),
                forall|k: int|
                    0 <= k < out@.len() ==> is_cross_ref_of(
                        #[trigger] out@[k],
                        string_arg_texts(es@.take(i as int))[k],
                    ),
            decreases es@.len() - i,
        {
            proof {
                assert(es@.take(i + 1).drop_last() =~= es@.take(i as int));
                assert(es@.take(i + 1).last() == es@[i as int]);
            }
            if let KdlEntry::Argument { value: KdlValue::String(t), .. } = &es[i] {
                out.push(CrossRef::parse(t.as_str()));
            }
            i = i + 1;
        }
        proof {
            assert(es@.take(es@.len() as int) =~= es@);
        }
        out
    }

    /// The first property named `key` that holds a string, read as a cross
    /// reference.
    pub fn cross_ref_prop(&self, key: &str) -> (r: Option<Result<CrossRef, CrossRefParseError>>)
        ensures
            match string_prop_text(self.node_spec().entries@, key@) {
                Some(t) => r matches Some(x) && is_cross_ref_of(x, t),
                None => r is None,
            },
    {
        let es = &self.node.entries;
        let mut i: usize = 0;
        proof {
            assert(es@.skip(0) =~= es@);
        }
        while i < es.len()
            invariant
                es@ == self.node_spec().entries@,
                0 <= i <= es@.len(),
                string_prop_text(es@, key@) == string_prop_text(es@.skip(i as int), key@),
            decreases es@.len() - i,
        {
            proof {
                assert(es@.skip(i as int).drop_first() =~= es@.skip(i + 1));
                assert(es@.skip(i as int)[0] == es@[i as int]);
            }
            if let KdlEntry::Property { key: k, value: KdlValue::String(t), .. } = &es[i] {
                if crate::text::str_eq(k.as_str(), key) {
                    return Some(CrossRef::parse(t.as_str()));
                }
            }
            i = i + 1;
        }
        None
    }

    /// The string property `key`, or else the first string argument of the
    /// first child named `key`.
    pub fn attribute_str(&self, key: &str) -> (r: Option<&'a str>)
        ensures
            match prop_value(self.node_spec().entries@, key@) {
                Some(KdlValue::String(t)) => r matches Some(x) && x@ == t@,
                _ => match first_named(children_of(self.node_spec()), key@) {
                    Some(c) => match first_string(c) {
                        Some(t) => r matches Some(x) && x@ == t,
                        None => r is None,
                    },
                    None => r is None,
                },
            },
    {
        match self.node.string_prop(key) {
            Some(v) => Some(v),
            None => match self.node.find_child(key) {
                Some(c) => c.first_string_arg(),
                None => None,
            },
        }
    }

    /// The boolean property `key`, or else the first argument of the first
    /// child named `key` when it is a boolean.
    pub fn attribute_bool(&self, key: &str) -> (r: Option<bool>)
        ensures
            match prop_value(self.node_spec().entries@, key@) {
                Some(KdlValue::Bool(b)) => r == Some(b),
                _ => match first_named(children_of(self.node_spec()), key@) {
                    Some(c) => match first_arg_value(c.entries@) {
                        Some(KdlValue::Bool(b)) => r == Some(b),
                        _ => r is None,
                    },
                    None => r is None,
                },
            },
    {
        match self.node.bool_prop(key) {
            Some(b) => Some(b),
            None => match self.node.find_child(key) {
                Some(c) => match c.first_arg() {
                    Some(KdlValue::Bool(b)) => Some(*b),
                    _ => None,
                },
                None => None,
            },
        }
    }

    /// The structured form of the property `key`, or else the values of the
    /// arguments of the first child named `key`.
    pub fn attribute(&self, key: &str) -> (r: Option<StructuredValue>)
        ensures
            match prop_value(self.node_spec().entries@, key@) {
                Some(v) => r matches Some(x) && x@ == kdl_structured(v),
                None => match first_named(children_of(self.node_spec()), key@) {
                    Some(c) => r matches Some(x) && x@ == Structured::Sequence(
                        arg_values(c.entries@).map_values(|v: KdlValue| kdl_structured(v)),
                    ),
                    None => r is None,
                },
            },
    {
        match self.node.get(key) {
            Some(v) => Some(kdl_value_to_structured(v)),
            None => match self.node.find_child(key) {
                Some(c) => {
                    let values = c.arg_values();
                    let mut out: Vec<StructuredValue> = Vec::new();
                    let mut i: usize = 0;
                    let ghost vs = arg_values(c.entries@);
                    while i < values.len()
                        invariant
                            values@.map_values(|x: &KdlValue| *x) == vs,
                            0 <= i <= values@.len(),
                            sequence_view(out@) == vs.take(i as int).map_values(
                                |v: KdlValue| kdl_structured(v),
                            ),
                        decreases values@.len() - i,
                    {
                        let x = kdl_value_to_structured(values[i]);
                        let ghost before = out@;
                        out.push(x);
                        proof {
                            lemma_sequence_view_push(before, x);
                            assert(vs[i as int] == *values@[i as int]);
                            assert(vs.take(i + 1).map_values(|v: KdlValue| kdl_structured(v))
                                =~= vs.take(i as int).map_values(|v: KdlValue| kdl_structured(v)).push(
                                kdl_structured(vs[i as int]),
                            ));
                        }
                        i = i + 1;
                    }
                    proof {
                        assert(vs.take(vs.len() as int) =~= vs);
                    }
                    Some(StructuredValue::Sequence(out))
                },
                None => None,
            },
        }
    }

    /// The structured form of the node: its properties in order, then its
    /// argument values under `$args` when it has any.
    pub fn value(&self) -> (r: StructuredValue)
        ensures
            r@ == node_structured(self.node_spec().entries@),
    {
        let es = &self.node.entries;
        let mut fields: Vec<StructuredField> = Vec::new();
        let mut arguments: Vec<StructuredValue> = Vec::new();
        let mut i: usize = 0;
        proof {
            assert(es@.take(0) =~= Seq::<KdlEntry>::empty());
            assert(sequence_view(arguments@) =~= arg_values(es@.take(0)).map_values(
                |v: KdlValue| kdl_structured(v),
            ));
        }
        while i < es.len()
            invariant
                es@ == self.node_spec().entries@,
                0 <= i <= es@.len(),
                mapping_view(fields@) == prop_fields(es@.take(i as int)),
                sequence_view(arguments@) == arg_values(es@.take(i as int)).map_values(
                    |v: KdlValue| kdl_structured(v),
                ),
            decreases es@.len() - i,
        {
            proof {
                assert(es@.take(i + 1).drop_last() =~= es@.take(i as int));
                assert(es@.take(i + 1).last() == es@[i as int]);
            }
            match &es[i] {
                KdlEntry::Argument { value, .. } => {
                    let x = kdl_value_to_structured(value);
                    let ghost before = arguments@;
                    arguments.push(x);
                    proof {
                        lemma_sequence_view_push(before, x);
                        assert(arg_values(es@.take(i + 1)).map_values(
                            |v: KdlValue| kdl_structured(v),
                        ) =~= arg_values(es@.take(i as int)).map_values(
                            |v: KdlValue| kdl_structured(v),
                        ).push(kdl_structured(*value)));
                    }
                },
                KdlEntry::Property { key, value, .. } => {
                    let f = StructuredField { key: key.clone(), value: kdl_value_to_structured(value) };
                    let ghost before = fields@;
                    fields.push(f);
                    proof {
                        lemma_mapping_view_push(before, f);
                    }
                },
            }
            i = i + 1;
        }
        proof {
            assert(es@.take(es@.len() as int) =~= es@);
        }
        if arguments.len() > 0 {
            let key = "$args";
            proof {
                reveal_strlit("$args");
                assert(key@ =~= seq!['$', 'a', 'r', 'g', 's']);
            }
            let f = StructuredField {
                key: key.to_owned(),
                value: StructuredValue::Sequence(arguments),
            };
            let ghost before = fields@;
            fields.push(f);
            proof {
                lemma_mapping_view_push(before, f);
            }
        }
        StructuredValue::Mapping(fields)
    }

    /// The number of leading dots of the name.
    pub fn dot_chain_depth(&self) -> (r: usize)
        ensures
            r == leading_dots(self.node_spec().name@),
    {
        leading_dot_count(self.node.name())
    }

    /// The name without its leading dots.
    pub fn dot_chain_kind(&self) -> (r: &'a str)
        ensures
            r@ == self.node_spec().name@.skip(leading_dots(self.node_spec().name@) as int),
    {
        trim_leading_dots(self.node.name())
    }
}

/// The number of leading `.` of `s`.
pub open spec fn leading_dots(s: Seq<char>) -> nat
    decreases s.len(),
{
    if s.len() > 0 && s[0] == '.' {
        1 + leading_dots(s.drop_first())
    } else {
        0
    }
}

proof fn lemma_leading_dots_len(s: Seq<char>)
    ensures
        leading_dots(s) <= s.len(),
    decreases s.len(),
{
    if s.len() > 0 && s[0] == '.' {
        lemma_leading_dots_len(s.drop_first());
    }
}

proof fn lemma_leading_dots(s: Seq<char>, i: int)
    requires
        0 <= i <= s.len(),
        forall|j: int| 0 <= j < i ==> s[j] == '.',
    ensures
        leading_dots(s) == i + leading_dots(s.skip(i)),
    decreases i,
{
    if i > 0 {
        assert(s.drop_first().skip(i - 1) =~= s.skip(i));
        lemma_leading_dots(s.drop_first(), i - 1);
    } else {
        assert(s.skip(0) =~= s);
    }
}

/// The number of leading `.` of `s`.
pub fn leading_dot_count(s: &str) -> (r: usize)
    ensures
        r == leading_dots(s@),
{
    let cs = crate::text::str_chars(s);
    let mut i: usize = 0;
    while i < cs.len() && cs[i] == '.'
        invariant
            cs@ == s@,
            0 <= i <= cs@.len(),
            forall|j: int| 0 <= j < i ==> cs@[j] == '.',
        decreases cs@.len() - i,
    {
        i = i + 1;
    }
    proof {
        lemma_leading_dots(s@, i as int);
    }
    i
}

/// The text after its leading dots.
fn trim_leading_dots(s: &str) -> (r: &str)
    ensures
        r@ == s@.skip(leading_dots(s@) as int),
{
    let d = leading_dot_count(s);
    let n = s.unicode_len();
    proof {
        lemma_leading_dots_len(s@);
    }
    let rest = s.substring_char(d, n);
    assert(rest@ =~= s@.skip(leading_dots(s@) as int));
    rest
}

/// What a structured entity offers: its kind, identifier, string
/// attributes, type annotation and children.
pub trait StructuredFacade<'a>: Sized {
    /// The kind, as a namespace path.
    fn kind(&self) -> NsidPath;

    /// The identifier, as a namespace path.
    fn identifier(&self) -> Option<NsidPath>;

    /// The string attribute `key`.
    fn attribute_str(&self, key: &str) -> Option<&'a str>;

    /// The type annotation.
    fn type_annotation(&self) -> Option<&'a str>;

    /// The children, in order.
    fn children(&self) -> Vec<Self>;
}

impl<'a> StructuredFacade<'a> for StructuredNode<'a> {
    fn kind(&self) -> (r: NsidPath)
        ensures
            r@ == nsid_of(self.node_spec().name@),
    {
        StructuredNode::kind(self)
    }

    fn identifier(&self) -> (r: Option<NsidPath>)
        ensures
            match first_string(self.node_spec()) {
                Some(t) => r matches Some(p) && p@ == nsid_of(t),
                None => r is None,
            },
    {
        StructuredNode::identifier(self)
    }

    fn attribute_str(&self, key: &str) -> (r: Option<&'a str>)
        ensures
            match prop_value(self.node_spec().entries@, key@) {
                Some(KdlValue::String(t)) => r matches Some(x) && x@ == t@,
                _ => match first_named(children_of(self.node_spec()), key@) {
                    Some(c) => match first_string(c) {
                        Some(t) => r matches Some(x) && x@ == t,
                        None => r is None,
                    },
                    None => r is None,
                },
            },
    {
        StructuredNode::attribute_str(self, key)
    }

    fn type_annotation(&self) -> (r: Option<&'a str>)
        ensures
            match self.node_spec().ty {
                Some(t) => r matches Some(x) && x@ == t@,
                None => r is None,
            },
    {
        StructuredNode::type_annotation(self)
    }

    fn children(&self) -> (r: Vec<StructuredNode<'a>>)
        ensures
            r@.len() == children_of(self.node_spec()).len(),
            forall|i: int|
                0 <= i < r@.len() ==> (#[trigger] r@[i]).node_spec() == children_of(
                    self.node_spec(),
                )[i],
    {
        StructuredNode::children(self)
    }
}

impl<'a> crate::ast::StructuredNode<'a> for StructuredNode<'a> {
    /// The node's name.
    open spec fn kind_view(&self) -> Seq<char> {
        self.node_spec().name@
    }

    /// The node's first string argument.
    open spec fn identifier_view(&self) -> Option<Seq<char>> {
        first_string(self.node_spec())
    }

    /// The property `key`, or else the argument values of the first child
    /// named `key`.
    open spec fn attribute_view(&self, key: Seq<char>) -> Option<Structured> {
        match prop_value(self.node_spec().entries@, key) {
            Some(v) => Some(kdl_structured(v)),
            None => match first_named(children_of(self.node_spec()), key) {
                Some(c) => Some(
                    Structured::Sequence(
                        arg_values(c.entries@).map_values(|v: KdlValue| kdl_structured(v)),
                    ),
                ),
                None => None,
            },
        }
    }

    /// The string property `key`, or else the first string argument of the
    /// first child named `key`.
    open spec fn attribute_str_view(&self, key: Seq<char>) -> Option<Seq<char>> {
        match prop_value(self.node_spec().entries@, key) {
            Some(KdlValue::String(t)) => Some(t@),
            _ => match first_named(children_of(self.node_spec()), key) {
                Some(c) => first_string(c),
                None => None,
            },
        }
    }

    /// The boolean property `key`, or else the first argument of the first
    /// child named `key` when it is a boolean.
    open spec fn attribute_bool_view(&self, key: Seq<char>) -> Option<bool> {
        match prop_value(self.node_spec().entries@, key) {
            Some(KdlValue::Bool(b)) => Some(b),
            _ => match first_named(children_of(self.node_spec()), key) {
                Some(c) => match first_arg_value(c.entries@) {
                    Some(KdlValue::Bool(b)) => Some(b),
                    _ => None,
                },
                None => None,
            },
        }
    }

    /// The node's type annotation.
    open spec fn type_annotation_view(&self) -> Option<Seq<char>> {
        match self.node_spec().ty {
            Some(t) => Some(t@),
            None => None,
        }
    }

    /// One view for each child of the node, in order.
    open spec fn children_are(&self, cs: Seq<StructuredNode<'a>>) -> bool {
        cs.len() == children_of(self.node_spec()).len() && forall|i: int|
            0 <= i < cs.len() ==> (#[trigger] cs[i]).node_spec() == children_of(
                self.node_spec(),
            )[i]
    }

    /// The properties in order, then the argument values under `$args`.
    open spec fn node_value_view(&self) -> Structured {
        node_structured(self.node_spec().entries@)
    }

    fn kind(&self) -> (r: &'a str) {
        self.node.name()
    }

    fn identifier(&self) -> (r: Option<&'a str>) {
        self.node.first_string_arg()
    }

    fn attribute(&self, key: &str) -> (r: Option<StructuredValue>) {
        StructuredNode::attribute(self, key)
    }

    fn attribute_str(&self, key: &str) -> (r: Option<String>) {
        match StructuredNode::attribute_str(self, key) {
            Some(t) => Some(t.to_string()),
            None => None,
        }
    }

    fn attribute_bool(&self, key: &str) -> (r: Option<bool>) {
        StructuredNode::attribute_bool(self, key)
    }

    fn type_annotation(&self) -> (r: Option<&'a str>) {
        StructuredNode::type_annotation(self)
    }

    fn children(&self) -> (r: Vec<StructuredNode<'a>>) {
        StructuredNode::children(self)
    }

    fn value(&self) -> (r: StructuredValue) {
        StructuredNode::value(self)
    }
}

} // verus!
