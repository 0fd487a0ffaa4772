//! The values of a KDL document, and the errors of reading one.
use vstd::prelude::*;
use crate::text::str_eq;

verus! {

/// A KDL document: zero or more nodes.
#[derive(Debug, PartialEq)]
pub struct KdlDocument {
    pub nodes: Vec<KdlNode>,
}

/// A KDL node: an optional type annotation, a name, its entries (arguments
/// and properties, in the order they were written) and an optional block of
/// children.
#[derive(Debug, PartialEq)]
pub struct KdlNode {
    pub ty: Option<String>,
    pub name: String,
    pub entries: Vec<KdlEntry>,
    pub children: Option<Vec<KdlNode>>,
}

/// An entry of a node: a positional argument or a named property.
#[derive(Debug, Clone, PartialEq)]
pub enum KdlEntry {
    Argument { ty: Option<String>, value: KdlValue },
    Property { key: String, ty: Option<String>, value: KdlValue },
}

/// A KDL value.
#[derive(Debug, Clone, PartialEq)]
pub enum KdlValue {
    String(String),
    Number(KdlNumber),
    Bool(bool),
    Null,
}

/// A number: its literal text as written (sign, radix prefix and
/// underscores included), and its value when it is an integer that fits in
/// an `i64`. Two numbers are equal when their texts are.
#[derive(Debug, Clone)]
pub struct KdlNumber {
    pub raw: String,
    pub as_i64: Option<i64>,
}

impl PartialEq for KdlNumber {
    fn eq(&self, other: &Self) -> (r: bool) {
        self.raw == other.raw
    }
}

impl vstd::std_specs::cmp::PartialEqSpecImpl for KdlNumber {
    open spec fn obeys_eq_spec() -> bool {
        true
    }

    open spec fn eq_spec(&self, other: &Self) -> bool {
        self.raw@ == other.raw@
    }
}

/// The model of a value.
pub enum Val {
    Str(Seq<char>),
    Num(Seq<char>, Option<i64>),
    Bool(bool),
    Null,
}

/// The model of an entry.
pub enum Entry {
    Arg { ty: Option<Seq<char>>, value: Val },
    Prop { key: Seq<char>, ty: Option<Seq<char>>, value: Val },
}

/// The model of a node.
pub struct Node {
    pub ty: Option<Seq<char>>,
    pub name: Seq<char>,
    pub entries: Seq<Entry>,
    pub children: Option<Seq<Node>>,
}

pub open spec fn opt_text(o: Option<String>) -> Option<Seq<char>> {
    match o {
        Some(s) => Some(s@),
        None => None,
    }
}

pub open spec fn val_view(v: KdlValue) -> Val {
    match v {
        KdlValue::String(s) => Val::Str(s@),
        KdlValue::Number(n) => Val::Num(n.raw@, n.as_i64),
        KdlValue::Bool(b) => Val::Bool(b),
        KdlValue::Null => Val::Null,
    }
}

pub open spec fn entry_view(e: KdlEntry) -> Entry {
    match e {
        KdlEntry::Argument { ty, value } => Entry::Arg { ty: opt_text(ty), value: val_view(value) },
        KdlEntry::Property { key, ty, value } => Entry::Prop {
            key: key@,
            ty: opt_text(ty),
            value: val_view(value),
        },
    }
}

pub open spec fn entries_view(es: Seq<KdlEntry>) -> Seq<Entry> {
    es.map_values(|e: KdlEntry| entry_view(e))
}

pub open spec fn node_view(n: &KdlNode) -> Node
    decreases n,
{
    Node {
        ty: opt_text(n.ty),
        name: n.name@,
        entries: entries_view(n.entries@),
        children: match &n.children {
            Some(c) => Some(nodes_view(c@)),
            None => None,
        },
    }
}

pub open spec fn nodes_view(ns: Seq<KdlNode>) -> Seq<Node>
    decreases ns,
{
    if ns.len() == 0 {
        Seq::empty()
    } else {
        nodes_view(ns.drop_last()).push(node_view(&ns.last()))
    }
}

pub proof fn lemma_nodes_view(ns: Seq<KdlNode>)
    ensures
        nodes_view(ns).len() == ns.len(),
        forall|i: int| 0 <= i < ns.len() ==> #[trigger] nodes_view(ns)[i] == node_view(&ns[i]),
    decreases ns.len(),
{
    if ns.len() > 0 {
        lemma_nodes_view(ns.drop_last());
    }
}

pub proof fn lemma_nodes_view_push(ns: Seq<KdlNode>, n: KdlNode)
    ensures
        nodes_view(ns.push(n)) == nodes_view(ns).push(node_view(&n)),
{
    assert(ns.push(n).drop_last() =~= ns);
}

impl View for KdlNode {
    type V = Node;

    open spec fn view(&self) -> Node {
        node_view(self)
    }
}

impl View for KdlEntry {
    type V = Entry;

    open spec fn view(&self) -> Entry {
        entry_view(*self)
    }
}

impl View for KdlValue {
    type V = Val;

    open spec fn view(&self) -> Val {
        val_view(*self)
    }
}

/// The value of the first property named `key`.
pub open spec fn prop_value(es: Seq<KdlEntry>, key: Seq<char>) -> Option<KdlValue>
    decreases es.len(),
{
    if es.len() == 0 {
        None
    } else {
        match es[0] {
            KdlEntry::Property { key: k, value, .. } => if k@ == key {
                Some(value)
            } else {
                prop_value(es.drop_first(), key)
            },
            _ => prop_value(es.drop_first(), key),
        }
    }
}

/// The value of the first argument.
pub open spec fn first_arg_value(es: Seq<KdlEntry>) -> Option<KdlValue>
    decreases es.len(),
{
    if es.len() == 0 {
        None
    } else {
        match es[0] {
            KdlEntry::Argument { value, .. } => Some(value),
            _ => first_arg_value(es.drop_first()),
        }
    }
}

/// The values of the arguments, in order.
pub open spec fn arg_values(es: Seq<KdlEntry>) -> Seq<KdlValue>
    decreases es.len(),
{
    if es.len() == 0 {
        Seq::empty()
    } else {
        match es.last() {
            KdlEntry::Argument { value, .. } => arg_values(es.drop_last()).push(value),
            _ => arg_values(es.drop_last()),
        }
    }
}

/// The string values of the arguments, in order.
pub open spec fn string_args(es: Seq<KdlEntry>) -> Seq<Seq<char>>
    decreases es.len(),
{
    if es.len() == 0 {
        Seq::empty()
    } else {
        match es.last() {
            KdlEntry::Argument { value: KdlValue::String(t), .. } => string_args(
                es.drop_last(),
            ).push(t@),
            _ => string_args(es.drop_last()),
        }
    }
}

/// The first node named `name`.
pub open spec fn first_named(nodes: Seq<KdlNode>, name: Seq<char>) -> Option<KdlNode>
    decreases nodes.len(),
{
    if nodes.len() == 0 {
        None
    } else if nodes[0].name@ == name {
        Some(nodes[0])
    } else {
        first_named(nodes.drop_first(), name)
    }
}

/// The nodes named `name`, in order.
pub open spec fn all_named(nodes: Seq<KdlNode>, name: Seq<char>) -> Seq<KdlNode>
    decreases nodes.len(),
{
    if nodes.len() == 0 {
        Seq::empty()
    } else if nodes.last().name@ == name {
        all_named(nodes.drop_last(), name).push(nodes.last())
    } else {
        all_named(nodes.drop_last(), name)
    }
}

/// The first string arguments of the nodes named `name` that have one.
pub open spec fn named_string_values(nodes: Seq<KdlNode>, name: Seq<char>) -> Seq<Seq<char>>
    decreases nodes.len(),
{
    if nodes.len() == 0 {
        Seq::empty()
    } else {
        let rest = named_string_values(nodes.drop_last(), name);
        let n = nodes.last();
        if n.name@ == name {
            match first_arg_value(n.entries@) {
                Some(KdlValue::String(t)) => rest.push(t@),
                _ => rest,
            }
        } else {
            rest
        }
    }
}

/// The children of a node, none when it has no block.
pub open spec fn children_of(n: KdlNode) -> Seq<KdlNode> {
    match n.children {
        Some(c) => c@,
        None => Seq::empty(),
    }
}

/// A copy of an optional text.
pub fn copy_opt_text(o: &Option<String>) -> (r: Option<String>)
    ensures
        opt_text(r) == opt_text(*o),
{
    match o {
        Some(t) => Some(t.clone()),
        None => None,
    }
}

/// A copy of a value.
pub fn copy_value(v: &KdlValue) -> (r: KdlValue)
    ensures
        r@ == v@,
{
    match v {
        KdlValue::String(s) => KdlValue::String(s.clone()),
        KdlValue::Number(n) => KdlValue::Number(KdlNumber { raw: n.raw.clone(), as_i64: n.as_i64 }),
        KdlValue::Bool(b) => KdlValue::Bool(*b),
        KdlValue::Null => KdlValue::Null,
    }
}

/// A copy of an entry.
pub fn copy_entry(e: &KdlEntry) -> (r: KdlEntry)
    ensures
        r@ == e@,
{
    match e {
        KdlEntry::Argument { ty, value } => KdlEntry::Argument {
            ty: copy_opt_text(ty),
            value: copy_value(value),
        },
        KdlEntry::Property { key, ty, value } => KdlEntry::Property {
            key: key.clone(),
            ty: copy_opt_text(ty),
            value: copy_value(value),
        },
    }
}

/// A copy of entries.
pub fn copy_entries(es: &Vec<KdlEntry>) -> (r: Vec<KdlEntry>)
    ensures
        entries_view(r@) == entries_view(es@),
{
    let mut out: Vec<KdlEntry> = Vec::new();
    let mut i: usize = 0;
    while i < es.len()
        invariant
            0 <= i <= es@.len(),
            entries_view(out@) == entries_view(es@.take(i as int)),
        decreases es@.len() - i,
    {
        let c = copy_entry(&es[i]);
        let ghost before = out@;
        out.push(c);
        proof {
            assert(entries_view(before.push(c)) =~= entries_view(before).push(entry_view(c)));
            assert(es@.take(i + 1) =~= es@.take(i as int).push(es@[i as int]));
            assert(entries_view(es@.take(i as int).push(es@[i as int])) =~= entries_view(
                es@.take(i as int),
            ).push(entry_view(es@[i as int])));
        }
        i = i + 1;
    }
    proof {
        assert(es@.take(es@.len() as int) =~= es@);
    }
    out
}

/// A copy of a node and its descendants.
pub fn copy_node(n: &KdlNode) -> (r: KdlNode)
    ensures
        r@ == n@,
    decreases n,
{
    let children = match &n.children {
        Some(c) => {
            proof {
                assert(decreases_to!(n => n.children));
            }
            Some(copy_nodes(c))
        },
        None => None,
    };
    KdlNode {
        ty: copy_opt_text(&n.ty),
        name: n.name.clone(),
        entries: copy_entries(&n.entries),
        children,
    }
}

/// Copies of nodes and their descendants.
pub fn copy_nodes(v: &Vec<KdlNode>) -> (r: Vec<KdlNode>)
    ensures
        nodes_view(r@) == nodes_view(v@),
    decreases v,
{
    let mut out: Vec<KdlNode> = Vec::new();
    let mut i: usize = 0;
    proof {
        assert(v@.take(0) =~= Seq::<KdlNode>::empty());
    }
    while i < v.len()
        invariant
            0 <= i <= v@.len(),
            nodes_view(out@) == nodes_view(v@.take(i as int)),
        decreases v@.len() - i,
    {
        proof {
            assert(decreases_to!(v => v@[i as int]));
        }
        let c = copy_node(&v[i]);
        let ghost before = out@;
        out.push(c);
        proof {
            lemma_nodes_view_push(before, c);
            assert(v@.take(i + 1) =~= v@.take(i as int).push(v@[i as int]));
            lemma_nodes_view_push(v@.take(i as int), v@[i as int]);
        }
        i = i + 1;
    }
    proof {
        assert(v@.take(v@.len() as int) =~= v@);
    }
    out
}

impl Clone for KdlNode {
    fn clone(&self) -> (r: Self) {
        copy_node(self)
    }
}

impl Clone for KdlDocument {
    fn clone(&self) -> (r: Self) {
        KdlDocument { nodes: copy_nodes(&self.nodes) }
    }
}

impl KdlDocument {
    /// The nodes of the document.
    pub fn nodes(&self) -> (r: &[KdlNode])
        ensures
            r@ == self.nodes@,
    {
        self.nodes.as_slice()
    }
}

impl KdlNode {
    /// The type annotation.
    pub fn ty(&self) -> (r: Option<&str>)
        ensures
            match self.ty {
                Some(t) => r matches Some(x) && x@ == t@,
                None => r is None,
            },
    {
        match &self.ty {
            Some(t) => Some(t.as_str()),
            None => None,
        }
    }

    /// The name.
    pub fn name(&self) -> (r: &str)
        ensures
            r@ == self.name@,
    {
        self.name.as_str()
    }

    /// The entries, in the order they were written.
    pub fn entries(&self) -> (r: &[KdlEntry])
        ensures
            r@ == self.entries@,
    {
        self.entries.as_slice()
    }

    /// The children, when the node has a block.
    pub fn children(&self) -> (r: Option<&[KdlNode]>)
        ensures
            match self.children {
                Some(c) => r matches Some(x) && x@ == c@,
                None => r is None,
            },
    {
        match &self.children {
            Some(c) => Some(c.as_slice()),
            None => None,
        }
    }

    /// The value of the first property named `key`.
    pub fn get(&self, key: &str) -> (r: Option<&KdlValue>)
        ensures
            match prop_value(self.entries@, key@) {
                Some(x) => r matches Some(v) && *v == x,
                None => r is None,
            },
    {
        let es = &self.entries;
        let mut i: usize = 0;
        proof {
            assert(es@.skip(0) =~= es@);
        }
        while i < es.len()
            invariant
                es == &self.entries,
                0 <= i <= es@.len(),
                prop_value(es@, key@) == prop_value(es@.skip(i as int), key@),
            decreases es@.len() - i,
        {
            proof {
                assert(es@.skip(i as int).drop_first() =~= es@.skip(i + 1));
                assert(es@.skip(i as int)[0] == es@[i as int]);
            }
            if let KdlEntry::Property { key: k, value, .. } = &es[i] {
                if str_eq(k.as_str(), key) {
                    return Some(value);
                }
            }
            i = i + 1;
        }
        None
    }

    /// The value of the first argument; properties are passed over.
    pub fn first_arg(&self) -> (r: Option<&KdlValue>)
        ensures
            match first_arg_value(self.entries@) {
                Some(x) => r matches Some(v) && *v == x,
                None => r is None,
            },
    {
        let es = &self.entries;
        let mut i: usize = 0;
        proof {
            assert(es@.skip(0) =~= es@);
        }
        while i < es.len()
            invariant
                es == &self.entries,
                0 <= i <= es@.len(),
                first_arg_value(es@) == first_arg_value(es@.skip(i as int)),
            decreases es@.len() - i,
        {
            proof {
                assert(es@.skip(i as int).drop_first() =~= es@.skip(i + 1));
                assert(es@.skip(i as int)[0] == es@[i as int]);
            }
            if let KdlEntry::Argument { value, .. } = &es[i] {
                return Some(value);
            }
            i = i + 1;
        }
        None
    }

    /// The first argument, when it is a string.
    pub fn first_string_arg(&self) -> (r: Option<&str>)
        ensures
            match first_arg_value(self.entries@) {
                Some(KdlValue::String(t)) => r matches Some(x) && x@ == t@,
                _ => r is None,
            },
    {
        match self.first_arg() {
            Some(v) => v.as_str(),
            None => None,
        }
    }

    /// The string values of the arguments, in order.
    pub fn string_args(&self) -> (r: Vec<&str>)
        ensures
            r@.map_values(|x: &str| x@) == string_args(self.entries@),
    {
        let es = &self.entries;
        let mut out: Vec<&str> = Vec::new();
        let mut i: usize = 0;
        proof {
            assert(es@.take(0) =~= Seq::<KdlEntry>::empty());
            assert(out@.map_values(|x: &str| x@) =~= string_args(es@.take(0)));
        }
        while i < es.len()
            invariant
                es == &self.entries,
                0 <= i <= es@.len(),
                out@.map_values(|x: &str| x@) == string_args(es@.take(i as int)),
            decreases es@.len() - i,
        {
            proof {
                assert(es@.take(i + 1).drop_last() =~= es@.take(i as int));
                assert(es@.take(i + 1).last() == es@[i as int]);
            }
            let ghost before = out@;
            if let KdlEntry::Argument { value: KdlValue::String(t), .. } = &es[i] {
                out.push(t.as_str());
                proof {
                    assert(out@.map_values(|x: &str| x@) =~= before.map_values(|x: &str| x@).push(
                        t@,
                    ));
                }
            }
            i = i + 1;
        }
        proof {
            assert(es@.take(es@.len() as int) =~= es@);
        }
        out
    }

    /// The values of the arguments, in order.
    pub fn arg_values(&self) -> (r: Vec<&KdlValue>)
        ensures
            r@.map_values(|x: &KdlValue| *x) == arg_values(self.entries@),
    {
        let es = &self.entries;
        let mut out: Vec<&KdlValue> = Vec::new();
        let mut i: usize = 0;
        proof {
            assert(es@.take(0) =~= Seq::<KdlEntry>::empty());
            assert(out@.map_values(|x: &KdlValue| *x) =~= arg_values(es@.take(0)));
        }
        while i < es.len()
            invariant
                es == &self.entries,
                0 <= i <= es@.len(),
                out@.map_values(|x: &KdlValue| *x) == arg_values(es@.take(i as int)),
            decreases es@.len() - i,
        {
            proof {
                assert(es@.take(i + 1).drop_last() =~= es@.take(i as int));
                assert(es@.take(i + 1).last() == es@[i as int]);
            }
            let ghost before = out@;
            if let KdlEntry::Argument { value, .. } = &es[i] {
                out.push(value);
                proof {
                    assert(out@.map_values(|x: &KdlValue| *x) =~= before.map_values(
                        |x: &KdlValue| *x,
                    ).push(*value));
                }
            }
            i = i + 1;
        }
        proof {
            assert(es@.take(es@.len() as int) =~= es@);
        }
        out
    }

    /// The first child named `name`.
    pub fn find_child(&self, name: &str) -> (r: Option<&KdlNode>)
        ensures
            match first_named(children_of(*self), name@) {
                Some(x) => r matches Some(n) && *n == x,
                None => r is None,
            },
    {
        let cs = match &self.children {
            Some(cs) => cs,
            None => {
                return None;
            },
        };
        let mut i: usize = 0;
        proof {
            assert(cs@.skip(0) =~= cs@);
        }
        while i < cs.len()
            invariant
                children_of(*self) == cs@,
                0 <= i <= cs@.len(),
                first_named(cs@, name@) == first_named(cs@.skip(i as int), name@),
            decreases cs@.len() - i,
        {
            proof {
                assert(cs@.skip(i as int).drop_first() =~= cs@.skip(i + 1));
                assert(cs@.skip(i as int)[0] == cs@[i as int]);
            }
            if str_eq(cs[i].name.as_str(), name) {
                return Some(&cs[i]);
            }
            i = i + 1;
        }
        None
    }

    /// The children named `name`, in order.
    pub fn find_children(&self, name: &str) -> (r: Vec<&KdlNode>)
        ensures
            r@.map_values(|x: &KdlNode| *x) == all_named(children_of(*self), name@),
    {
        let mut out: Vec<&KdlNode> = Vec::new();
        let cs = match &self.children {
            Some(cs) => cs,
            None => {
                proof {
                    assert(out@.map_values(|x: &KdlNode| *x) =~= Seq::<KdlNode>::empty());
                }
                return out;
            },
        };
        let mut i: usize = 0;
        proof {
            assert(cs@.take(0) =~= Seq::<KdlNode>::empty());
            assert(out@.map_values(|x: &KdlNode| *x) =~= all_named(cs@.take(0), name@));
        }
        while i < cs.len()
            invariant
                children_of(*self) == cs@,
                0 <= i <= cs@.len(),
                out@.map_values(|x: &KdlNode| *x) == all_named(cs@.take(i as int), name@),
            decreases cs@.len() - i,
        {
            proof {
                assert(cs@.take(i + 1).drop_last() =~= cs@.take(i as int));
                assert(cs@.take(i + 1).last() == cs@[i as int]);
            }
            let ghost before = out@;
            if str_eq(cs[i].name.as_str(), name) {
                out.push(&cs[i]);
                proof {
                    assert(out@.map_values(|x: &KdlNode| *x) =~= before.map_values(
                        |x: &KdlNode| *x,
                    ).push(cs@[i as int]));
                }
            }
            i = i + 1;
        }
        proof {
            assert(cs@.take(cs@.len() as int) =~= cs@);
        }
        out
    }

    /// The first property named `key`, when it is a string.
    pub fn string_prop(&self, key: &str) -> (r: Option<&str>)
        ensures
            match prop_value(self.entries@, key@) {
                Some(KdlValue::String(t)) => r matches Some(x) && x@ == t@,
                _ => r is None,
            },
    {
        match self.get(key) {
            Some(v) => v.as_str(),
            None => None,
        }
    }

    /// The first property named `key`, when it is a boolean.
    pub fn bool_prop(&self, key: &str) -> (r: Option<bool>)
        ensures
            match prop_value(self.entries@, key@) {
                Some(KdlValue::Bool(b)) => r == Some(b),
                _ => r is None,
            },
    {
        match self.get(key) {
            Some(v) => v.as_bool(),
            None => None,
        }
    }

    /// The first property named `key`, when it is a number with an `i64`
    /// value.
    pub fn int_prop(&self, key: &str) -> (r: Option<i64>)
        ensures
            match prop_value(self.entries@, key@) {
                Some(KdlValue::Number(n)) => r == n.as_i64,
                _ => r is None,
            },
    {
        match self.get(key) {
            Some(v) => v.as_i64(),
            None => None,
        }
    }

    /// The first string arguments of the children named `child_name` that
    /// have one, in order.
    pub fn string_child_values(&self, child_name: &str) -> (r: Vec<&str>)
        ensures
            r@.map_values(|x: &str| x@) == named_string_values(children_of(*self), child_name@),
    {
        let mut out: Vec<&str> = Vec::new();
        let cs = match &self.children {
            Some(cs) => cs,
            None => {
                proof {
                    assert(out@.map_values(|x: &str| x@) =~= Seq::<Seq<char>>::empty());
                }
                return out;
            },
        };
        let mut i: usize = 0;
        proof {
            assert(cs@.take(0) =~= Seq::<KdlNode>::empty());
            assert(out@.map_values(|x: &str| x@) =~= named_string_values(cs@.take(0), child_name@));
        }
        while i < cs.len()
            invariant
                children_of(*self) == cs@,
                0 <= i <= cs@.len(),
                out@.map_values(|x: &str| x@) == named_string_values(
                    cs@.take(i as int),
                    child_name@,
                ),
            decreases cs@.len() - i,
        {
            proof {
                assert(cs@.take(i + 1).drop_last() =~= cs@.take(i as int));
                assert(cs@.take(i + 1).last() == cs@[i as int]);
            }
            let ghost before = out@;
            if str_eq(cs[i].name.as_str(), child_name) {
                if let Some(t) = cs[i].first_string_arg() {
                    out.push(t);
                    proof {
                        assert(out@.map_values(|x: &str| x@) =~= before.map_values(|x: &str| x@).push(
                            t@,
                        ));
                    }
                }
            }
            i = i + 1;
        }
        proof {
            assert(cs@.take(cs@.len() as int) =~= cs@);
        }
        out
    }
}

impl KdlEntry {
    /// The value of the entry.
    pub fn value(&self) -> (r: &KdlValue)
        ensures
            *r == (match *self {
                KdlEntry::Argument { value, .. } => value,
                KdlEntry::Property { value, .. } => value,
            }),
    {
        match self {
            KdlEntry::Argument { value, .. } => value,
            KdlEntry::Property { value, .. } => value,
        }
    }

    /// The type annotation of the entry.
    pub fn ty(&self) -> (r: Option<&str>)
        ensures
            match (match *self {
                KdlEntry::Argument { ty, .. } => ty,
                KdlEntry::Property { ty, .. } => ty,
            }) {
                Some(t) => r matches Some(x) && x@ == t@,
                None => r is None,
            },
    {
        let ty = match self {
            KdlEntry::Argument { ty, .. } => ty,
            KdlEntry::Property { ty, .. } => ty,
        };
        match ty {
            Some(t) => Some(t.as_str()),
            None => None,
        }
    }
}

impl KdlValue {
    /// The string, for a string value.
    pub fn as_str(&self) -> (r: Option<&str>)
        ensures
            match *self {
                KdlValue::String(t) => r matches Some(x) && x@ == t@,
                _ => r is None,
            },
    {
        match self {
            KdlValue::String(s) => Some(s.as_str()),
            _ => None,
        }
    }

    /// The boolean, for a boolean value.
    pub fn as_bool(&self) -> (r: Option<bool>)
        ensures
            match *self {
                KdlValue::Bool(b) => r == Some(b),
                _ => r is None,
            },
    {
        match self {
            KdlValue::Bool(b) => Some(*b),
            _ => None,
        }
    }

    /// The `i64` value, for a number that has one.
    pub fn as_i64(&self) -> (r: Option<i64>)
        ensures
            match *self {
                KdlValue::Number(n) => r == n.as_i64,
                _ => r is None,
            },
    {
        match self {
            KdlValue::Number(n) => n.as_i64,
            _ => None,
        }
    }
}

impl KdlNumber {
    /// The number as written.
    pub fn raw(&self) -> (r: &str)
        ensures
            r@ == self.raw@,
    {
        self.raw.as_str()
    }

    /// The `i64` value, when the number is an integer that fits.
    pub fn as_i64(&self) -> (r: Option<i64>)
        ensures
            r == self.as_i64,
    {
        self.as_i64
    }
}

/// What went wrong while reading KDL text.
#[derive(Debug, Clone, Copy, PartialEq, Eq, Structural)]
pub enum KdlErrorKind {
    /// A character that cannot stand here.
    UnexpectedChar(char),
    /// The text ended too early.
    UnexpectedEof,
    /// An invalid escape in a string.
    InvalidEscape,
    /// An invalid `\u{..}` escape in a string.
    InvalidUnicodeEscape,
    /// An invalid number literal.
    InvalidNumber,
    /// A code point that KDL does not allow in a document.
    DisallowedCodePoint(char),
    /// A bare keyword (`true`, `false`, `null`, `inf`, `-inf`, `nan`).
    BareKeyword,
    /// A `*/` with no comment open.
    UnmatchedBlockCommentEnd,
    /// A block comment that is never closed.
    UnclosedBlockComment,
    /// A string that is never closed.
    UnclosedString,
    /// Lines of a multi-line string with inconsistent indentation.
    InconsistentIndentation,
    /// A slashdash where none may stand.
    InvalidSlashdash,
}

/// An error in KDL text, with its 1-based line and column (counted in
/// Unicode scalar values).
#[derive(Debug, Clone, Copy, PartialEq, Eq, Structural)]
pub struct KdlError {
    pub line: usize,
    pub col: usize,
    pub kind: KdlErrorKind,
}

impl KdlError {
    /// The 1-based line.
    pub fn line(&self) -> (r: usize)
        ensures
            r == self.line,
    {
        self.line
    }

    /// The 1-based column.
    pub fn col(&self) -> (r: usize)
        ensures
            r == self.col,
    {
        self.col
    }

    /// What went wrong.
    pub fn kind(&self) -> (r: &KdlErrorKind)
        ensures
            *r == self.kind,
    {
        &self.kind
    }
}

} // verus!
