//! Rewriting documents between notations: dotted names against nested
//! namespaces, properties against child nodes, type annotations and kind
//! keywords against marker nodes.
use vstd::prelude::*;
use crate::kdl::value::{
    entries_view, lemma_nodes_view, lemma_nodes_view_push, nodes_view, Entry, KdlDocument,
    KdlEntry, KdlNode, KdlValue, Node, Val,
};
use crate::text::str_chars;
use super::convention::{is_marker_name, marker_matches, Convention, Marker};
use super::document::Document;
use super::nsid::{split_on, strings_view, NsidPath};

verus! {

/// Whether a transform changed anything, and why not when it did not.
#[derive(Debug, Clone, PartialEq, Eq)]
pub enum TransformOutcome {
    Applied,
    NoOp { reason: String },
}

/// The rewrite applied to each node by the walk over a document.
pub enum NodeOp {
    Nest,
    Flatten,
    ExpandProperties,
    ExpandType(Marker),
    CollapseType(Marker),
    ExpandKind(Marker),
    CollapseKind(Marker),
}

/// The model of a marker.
pub enum MarkerV {
    Kind(Seq<char>),
    Prefix(char),
}

pub open spec fn marker_view(m: Marker) -> MarkerV {
    match m {
        Marker::Kind(k) => MarkerV::Kind(k@),
        Marker::Prefix(c) => MarkerV::Prefix(c),
    }
}

pub open spec fn is_marker(conv: Convention, name: Seq<char>) -> bool {
    is_marker_name(conv.markers@, name)
}

/// A node with other children: `None` for none.
pub open spec fn with_children(n: Node, cs: Seq<Node>) -> Node {
    Node { children: if cs.len() > 0 {
        Some(cs)
    } else {
        None
    }, ..n }
}

// ---- nesting dotted names ----
/// `leaf` under one namespace node per segment of `prefix`, outermost first.
pub open spec fn chain(prefix: Seq<Seq<char>>, leaf: Node) -> Node
    decreases prefix.len(),
{
    if prefix.len() == 0 {
        leaf
    } else {
        chain(
            prefix.drop_last(),
            Node { ty: None, name: prefix.last(), entries: Seq::empty(), children: Some(seq![leaf]) },
        )
    }
}

/// A node named `a.b.c` as `a { b { c } }`, unless `skip`, or the name
/// starts with `.`, holds no `.`, or has an empty segment.
pub open spec fn nest_spec(n: Node, skip: bool) -> (Seq<Node>, bool) {
    let segs = split_on(n.name, '.');
    if skip || (n.name.len() > 0 && n.name[0] == '.') || !n.name.contains('.') || (exists|i: int|
        0 <= i < segs.len() && segs[i].len() == 0) {
        (seq![n], false)
    } else {
        (seq![chain(segs.drop_last(), Node { name: segs.last(), ..n })], true)
    }
}

// ---- flattening namespace chains ----
/// A chain of namespace nodes (no type, no entries, one child) merged into
/// its innermost node, whose name becomes the dotted chain of names.
pub open spec fn flat_with(name: Seq<char>, n: Node) -> Node
    decreases n,
{
    match n.children {
        Some(c) => if n.ty is None && n.entries.len() == 0 && c.len() == 1 {
            flat_with(name + seq!['.'] + c[0].name, c[0])
        } else {
            Node { name, ..n }
        },
        None => Node { name, ..n },
    }
}

pub open spec fn flattens(n: Node) -> bool {
    n.children matches Some(c) && n.ty is None && n.entries.len() == 0 && c.len() == 1
}

pub open spec fn flatten_spec(n: Node, skip: bool) -> (Seq<Node>, bool) {
    if skip {
        (seq![n], false)
    } else {
        (seq![flat_with(n.name, n)], flattens(n))
    }
}

// ---- properties as children ----
pub open spec fn arg_entries(es: Seq<Entry>) -> Seq<Entry>
    decreases es.len(),
{
    if es.len() == 0 {
        Seq::empty()
    } else if es.last() is Arg {
        arg_entries(es.drop_last()).push(es.last())
    } else {
        arg_entries(es.drop_last())
    }
}

/// Each property `key=(t)v` as a child node `key (t)v`.
pub open spec fn prop_nodes(es: Seq<Entry>) -> Seq<Node>
    decreases es.len(),
{
    if es.len() == 0 {
        Seq::empty()
    } else {
        match es.last() {
            Entry::Prop { key, ty, value } => prop_nodes(es.drop_last()).push(
                Node {
                    ty: None,
                    name: key,
                    entries: seq![Entry::Arg { ty, value }],
                    children: None,
                },
            ),
            _ => prop_nodes(es.drop_last()),
        }
    }
}

pub open spec fn old_children(n: Node) -> Seq<Node> {
    match n.children {
        Some(c) => c,
        None => Seq::empty(),
    }
}

pub open spec fn expand_props_spec(n: Node, skip: bool) -> (Seq<Node>, bool) {
    if skip {
        (seq![n], false)
    } else {
        (
            seq![
                with_children(
                    Node { entries: arg_entries(n.entries), ..n },
                    old_children(n) + prop_nodes(n.entries),
                ),
            ],
            prop_nodes(n.entries).len() > 0,
        )
    }
}

// ---- markers ----
pub open spec fn first_string_of(es: Seq<Entry>) -> Option<Seq<char>>
    decreases es.len(),
{
    if es.len() == 0 {
        None
    } else {
        match es[0] {
            Entry::Arg { value: Val::Str(s), .. } => Some(s),
            Entry::Arg { .. } => None,
            _ => first_string_of(es.drop_first()),
        }
    }
}

pub open spec fn marker_matches_v(m: MarkerV, name: Seq<char>) -> bool {
    match m {
        MarkerV::Kind(k) => name == k,
        MarkerV::Prefix(c) => name.len() > 0 && name[0] == c,
    }
}

/// What a marker node carries: its first string argument for a kind
/// marker, its name after the prefix for a prefix marker.
pub open spec fn marker_payload(m: MarkerV, n: Node) -> Seq<char> {
    match m {
        MarkerV::Kind(_) => match first_string_of(n.entries) {
            Some(s) => s,
            None => Seq::empty(),
        },
        MarkerV::Prefix(c) => if n.name.len() > 0 && n.name[0] == c {
            n.name.drop_first()
        } else {
            n.name
        },
    }
}

pub open spec fn marker_name(m: MarkerV, payload: Seq<char>) -> Seq<char> {
    match m {
        MarkerV::Kind(k) => k,
        MarkerV::Prefix(c) => seq![c] + payload,
    }
}

/// `child` wrapped in a marker node carrying `payload`.
pub open spec fn marker_wrapper(m: MarkerV, payload: Seq<char>, child: Node) -> Node {
    match m {
        MarkerV::Kind(k) => Node {
            ty: None,
            name: k,
            entries: seq![Entry::Arg { ty: None, value: Val::Str(payload) }],
            children: Some(seq![child]),
        },
        MarkerV::Prefix(c) => Node {
            ty: None,
            name: seq![c] + payload,
            entries: Seq::empty(),
            children: Some(seq![child]),
        },
    }
}

/// A type annotation `(T)node` as a marker node carrying `T` around the
/// node.
pub open spec fn expand_type_spec(n: Node, skip: bool, m: MarkerV) -> (Seq<Node>, bool) {
    match n.ty {
        Some(t) => if skip {
            (seq![n], false)
        } else {
            (seq![marker_wrapper(m, t, Node { ty: None, ..n })], true)
        },
        None => (seq![n], false),
    }
}

/// A marker node around a single child as the child with the marker's
/// payload as its type annotation.
pub open spec fn collapse_type_spec(n: Node, skip: bool, m: MarkerV) -> (Seq<Node>, bool) {
    if skip || !marker_matches_v(m, n.name) {
        (seq![n], false)
    } else {
        match n.children {
            Some(c) => if c.len() == 1 {
                (seq![Node { ty: Some(marker_payload(m, n)), ..c[0] }], true)
            } else {
                (seq![n], false)
            },
            None => (seq![n], false),
        }
    }
}

/// The first argument without type annotation that is a string, and the
/// other entries in order.
pub open spec fn take_first_string(es: Seq<Entry>) -> Option<(Seq<char>, Seq<Entry>)>
    decreases es.len(),
{
    if es.len() == 0 {
        None
    } else {
        match es[0] {
            Entry::Arg { ty: None, value: Val::Str(s) } => Some((s, es.drop_first())),
            _ => match take_first_string(es.drop_first()) {
                Some((s, rest)) => Some((s, seq![es[0]] + rest)),
                None => None,
            },
        }
    }
}

/// The identifier of a node (its first plain string argument) as a marker
/// node that takes over the node's children. A node without one loses its
/// entries and is otherwise kept.
pub open spec fn expand_kind_spec(n: Node, skip: bool, m: MarkerV) -> (Seq<Node>, bool) {
    if skip {
        (seq![n], false)
    } else {
        match take_first_string(n.entries) {
            None => (seq![Node { entries: Seq::empty(), ..n }], false),
            Some((id, rest)) => (
                seq![
                    Node {
                        entries: rest,
                        children: Some(
                            seq![
                                Node {
                                    ty: None,
                                    name: marker_name(m, id),
                                    entries: Seq::empty(),
                                    children: n.children,
                                },
                            ],
                        ),
                        ..n
                    },
                ],
                true,
            ),
        }
    }
}

/// A single marker child as the node's first argument, the marker's
/// children becoming the node's.
pub open spec fn collapse_kind_spec(n: Node, skip: bool, m: MarkerV) -> (Seq<Node>, bool) {
    if skip {
        (seq![n], false)
    } else {
        match n.children {
            Some(c) => if c.len() == 1 && marker_matches_v(m, c[0].name) {
                (
                    seq![
                        Node {
                            entries: seq![
                                Entry::Arg { ty: None, value: Val::Str(marker_payload(m, c[0])) },
                            ] + n.entries,
                            children: c[0].children,
                            ..n
                        },
                    ],
                    true,
                )
            } else {
                (seq![n], false)
            },
            None => (seq![n], false),
        }
    }
}

pub enum OpV {
    Nest,
    Flatten,
    ExpandProperties,
    ExpandType(MarkerV),
    CollapseType(MarkerV),
    ExpandKind(MarkerV),
    CollapseKind(MarkerV),
}

pub open spec fn op_view(op: NodeOp) -> OpV {
    match op {
        NodeOp::Nest => OpV::Nest,
        NodeOp::Flatten => OpV::Flatten,
        NodeOp::ExpandProperties => OpV::ExpandProperties,
        NodeOp::ExpandType(m) => OpV::ExpandType(marker_view(m)),
        NodeOp::CollapseType(m) => OpV::CollapseType(marker_view(m)),
        NodeOp::ExpandKind(m) => OpV::ExpandKind(marker_view(m)),
        NodeOp::CollapseKind(m) => OpV::CollapseKind(marker_view(m)),
    }
}

/// The rewrite of one node whose children have been rewritten already.
/// Nesting and flattening leave marker nodes as they are.
pub open spec fn apply_op(op: OpV, conv: Convention, n: Node, skip: bool) -> (Seq<Node>, bool) {
    match op {
        OpV::Nest => nest_spec(n, skip || is_marker(conv, n.name)),
        OpV::Flatten => flatten_spec(n, skip || is_marker(conv, n.name)),
        OpV::ExpandProperties => expand_props_spec(n, skip),
        OpV::ExpandType(m) => expand_type_spec(n, skip, m),
        OpV::CollapseType(m) => collapse_type_spec(n, skip, m),
        OpV::ExpandKind(m) => expand_kind_spec(n, skip, m),
        OpV::CollapseKind(m) => collapse_kind_spec(n, skip, m),
    }
}

/// A node rewritten bottom-up: its children first (names under a marker
/// node are left alone), an emptied block of children dropped, then the node
/// itself.
pub open spec fn walk_node(op: OpV, conv: Convention, n: Node, pm: bool) -> (Seq<Node>, bool)
    decreases n,
{
    match n.children {
        Some(c) => {
            let inner = walk_nodes(op, conv, c, is_marker(conv, n.name));
            let r = apply_op(op, conv, with_children(n, inner.0), pm);
            (r.0, inner.1 || r.1)
        },
        None => apply_op(op, conv, n, pm),
    }
}

/// Nodes rewritten one after the other.
pub open spec fn walk_nodes(op: OpV, conv: Convention, ns: Seq<Node>, pm: bool) -> (
    Seq<Node>,
    bool,
)
    decreases ns,
{
    if ns.len() == 0 {
        (Seq::empty(), false)
    } else {
        let a = walk_nodes(op, conv, ns.drop_last(), pm);
        let b = walk_node(op, conv, ns.last(), pm);
        (a.0 + b.0, a.1 || b.1)
    }
}

fn starts_with_char(s: &str, c: char) -> (r: bool)
    ensures
        r == (s@.len() > 0 && s@[0] == c),
{
    let cs = str_chars(s);
    cs.len() > 0 && cs[0] == c
}

fn has_char(s: &str, c: char) -> (r: bool)
    ensures
        r == s@.contains(c),
{
    let cs = str_chars(s);
    let mut i: usize = 0;
    while i < cs.len()
        invariant
            cs@ == s@,
            0 <= i <= cs@.len(),
            forall|j: int| 0 <= j < i ==> cs@[j] != c,
        decreases cs@.len() - i,
    {
        if cs[i] == c {
            return true;
        }
        i = i + 1;
    }
    false
}

fn one_node(n: KdlNode) -> (r: Vec<KdlNode>)
    ensures
        nodes_view(r@) == seq![n@],
{
    let mut v: Vec<KdlNode> = Vec::new();
    v.push(n);
    proof {
        lemma_nodes_view_push(Seq::empty(), n);
        assert(Seq::<KdlNode>::empty().push(n) =~= v@);
        assert(nodes_view(Seq::<KdlNode>::empty()) =~= Seq::<Node>::empty());
    }
    v
}

/// A node named `a.b.c` as `a { b { c } }`.
fn nest_node(node: KdlNode, skip: bool) -> (r: (Vec<KdlNode>, bool))
    ensures
        nodes_view(r.0@) == nest_spec(node@, skip).0,
        r.1 == nest_spec(node@, skip).1,
{
    let ghost nv = node@;
    if skip || starts_with_char(node.name.as_str(), '.') || !has_char(node.name.as_str(), '.') {
        return (one_node(node), false);
    }
    let path = NsidPath::parse(node.name.as_str());
    let segs = path.segments();
    let ghost sv = split_on(nv.name, '.');
    proof {
        assert(strings_view(segs@) == sv);
        assert(strings_view(segs@).len() == segs@.len());
    }
    let n = segs.len();
    let mut k: usize = 0;
    while k < n
        invariant
            nv == node@,
            sv == split_on(nv.name, '.'),
            !skip,
            !(nv.name.len() > 0 && nv.name[0] == '.'),
            nv.name.contains('.'),
            n == segs@.len(),
            strings_view(segs@) == sv,
            0 <= k <= n,
            forall|j: int| 0 <= j < k ==> sv[j].len() > 0,
        decreases n - k,
    {
        proof {
            assert(sv[k as int] == segs@[k as int]@);
        }
        if segs[k].as_str().is_empty() {
            proof {
                assert(0 <= k < sv.len() && sv[k as int].len() == 0);
            }
            return (one_node(node), false);
        }
        k = k + 1;
    }
    proof {
        crate::kdl_ast::nsid::lemma_split_on_nonempty(nv.name, '.');
        assert(nv.name.contains('.'));
        lemma_split_len(nv.name, '.');
    }
    let KdlNode { ty, name: _, entries, children } = node;
    let mut leaf = KdlNode { ty, name: segs[n - 1].clone(), entries, children };
    proof {
        assert(sv[n - 1] == segs@[n - 1]@);
        assert(leaf@ == (Node { name: sv.last(), ..nv }));
        assert(sv.drop_last() =~= sv.take(n - 1));
    }
    let mut j: usize = n - 1;
    while j > 0
        invariant
            n == segs@.len(),
            strings_view(segs@) == sv,
            n >= 2,
            0 <= j <= n - 1,
            chain(sv.take(n - 1), Node { name: sv.last(), ..nv }) == chain(sv.take(j as int), leaf@),
        decreases j,
    {
        j = j - 1;
        let ghost before = leaf@;
        proof {
            assert(sv[j as int] == segs@[j as int]@);
            assert(sv.take(j + 1).drop_last() =~= sv.take(j as int));
            assert(sv.take(j + 1).last() == sv[j as int]);
        }
        let wrapped = one_node(leaf);
        leaf = KdlNode { ty: None, name: segs[j].clone(), entries: Vec::new(), children: Some(wrapped) };
        proof {
            assert(entries_view(Seq::<KdlEntry>::empty()) =~= Seq::<Entry>::empty());
            assert(leaf@ == (Node {
                ty: None,
                name: sv[j as int],
                entries: Seq::empty(),
                children: Some(seq![before]),
            }));
        }
    }
    proof {
        assert(sv.take(0) =~= Seq::<Seq<char>>::empty());
    }
    (one_node(leaf), true)
}

proof fn lemma_split_len(s: Seq<char>, sep: char)
    requires
        s.contains(sep),
    ensures
        split_on(s, sep).len() >= 2,
    decreases s.len(),
{
    crate::kdl_ast::nsid::lemma_split_on_nonempty(s, sep);
    if s.last() == sep {
        crate::kdl_ast::nsid::lemma_split_on_nonempty(s.drop_last(), sep);
    } else {
        let k = choose|k: int| 0 <= k < s.len() && s[k] == sep;
        assert(s.drop_last()[k] == sep);
        lemma_split_len(s.drop_last(), sep);
    }
}

/// How many namespace nodes a chain holds above its innermost node.
pub open spec fn chain_len(n: Node) -> nat
    decreases n,
{
    match n.children {
        Some(c) => if n.ty is None && n.entries.len() == 0 && c.len() == 1 {
            1 + chain_len(c[0])
        } else {
            0
        },
        None => 0,
    }
}

proof fn lemma_flat_with_name(name: Seq<char>, n: Node, m: Node)
    requires
        n.ty == m.ty,
        n.entries == m.entries,
        n.children == m.children,
    ensures
        flat_with(name, n) == flat_with(name, m),
        chain_len(n) == chain_len(m),
{
}

/// A chain of namespace nodes merged into its innermost node.
fn flatten_node(node: KdlNode, skip: bool) -> (r: (Vec<KdlNode>, bool))
    ensures
        nodes_view(r.0@) == flatten_spec(node@, skip).0,
        r.1 == flatten_spec(node@, skip).1,
{
    let ghost nv = node@;
    if skip {
        return (one_node(node), false);
    }
    let mut cur = node;
    let mut changed = false;
    loop
        invariant
            flat_with(nv.name, nv) == flat_with(cur@.name, cur@),
            changed ==> flattens(nv),
            !changed ==> cur@ == nv,
        ensures
            flat_with(nv.name, nv) == cur@,
            changed == flattens(nv),
        decreases chain_len(cur@),
    {
        let ghost before = cur@;
        let KdlNode { ty, name, entries, children } = cur;
        match children {
            Some(mut c) => {
                proof {
                    lemma_nodes_view(c@);
                    assert(entries_view(entries@).len() == entries@.len());
                }
                if ty.is_none() && entries.len() == 0 && c.len() == 1 {
                    let child = c.pop().unwrap();
                    let KdlNode { ty: cty, name: cname, entries: centries, children: cchildren } =
                        child;
                    let mut new_name = name;
                    new_name.push('.');
                    new_name.push_str(cname.as_str());
                    cur = KdlNode { ty: cty, name: new_name, entries: centries, children: cchildren };
                    proof {
                        let c0 = before.children.unwrap()[0];
                        assert(c0 == child@);
                        assert(cur@.name == before.name + seq!['.'] + c0.name);
                        lemma_flat_with_name(cur@.name, cur@, c0);
                        assert(flat_with(before.name, before) == flat_with(
                            before.name + seq!['.'] + c0.name,
                            c0,
                        ));
                    }
                    changed = true;
                } else {
                    cur = KdlNode { ty, name, entries, children: Some(c) };
                    proof {
                        assert(cur@ == before);
                        assert(!flattens(before));
                        assert(flat_with(before.name, before) == before);
                    }
                    break;
                }
            },
            None => {
                cur = KdlNode { ty, name, entries, children: None };
                proof {
                    assert(cur@ == before);
                    assert(flat_with(before.name, before) == before);
                }
                break;
            },
        }
    }
    (one_node(cur), changed)
}

/// Properties as child nodes, after the children already there.
fn expand_properties_node(node: KdlNode, skip: bool) -> (r: (Vec<KdlNode>, bool))
    ensures
        nodes_view(r.0@) == expand_props_spec(node@, skip).0,
        r.1 == expand_props_spec(node@, skip).1,
{
    let ghost nv = node@;
    if skip {
        return (one_node(node), false);
    }
    let KdlNode { ty, name, entries, children } = node;
    let mut new_children: Vec<KdlNode> = match children {
        Some(c) => c,
        None => Vec::new(),
    };
    let ghost base = nodes_view(new_children@);
    let mut kept: Vec<KdlEntry> = Vec::new();
    let mut changed = false;
    let mut i: usize = 0;
    let ghost ev = entries_view(entries@);
    proof {
        assert(ev.take(0) =~= Seq::<Entry>::empty());
        assert(entries_view(kept@) =~= Seq::<Entry>::empty());
        assert(base == old_children(nv));
        assert(new_children@.len() >= 0);
        assert(nodes_view(new_children@) =~= base + prop_nodes(ev.take(0)));
    }
    while i < entries.len()
        invariant
            ev == entries_view(entries@),
            0 <= i <= entries@.len(),
            entries_view(kept@) == arg_entries(ev.take(i as int)),
            nodes_view(new_children@) == base + prop_nodes(ev.take(i as int)),
            changed == (prop_nodes(ev.take(i as int)).len() > 0),
        decreases entries@.len() - i,
    {
        proof {
            assert(ev.take(i + 1).drop_last() =~= ev.take(i as int));
            assert(ev.take(i + 1).last() == ev[i as int]);
            assert(ev[i as int] == crate::kdl::value::entry_view(entries@[i as int]));
        }
        match &entries[i] {
            KdlEntry::Property { key, ty: pty, value } => {
                let arg = KdlEntry::Argument {
                    ty: crate::kdl::value::copy_opt_text(pty),
                    value: crate::kdl::value::copy_value(value),
                };
                let mut es: Vec<KdlEntry> = Vec::new();
                es.push(arg);
                let child = KdlNode { ty: None, name: key.clone(), entries: es, children: None };
                let ghost before = new_children@;
                new_children.push(child);
                proof {
                    assert(entries_view(es@) =~= seq![crate::kdl::value::entry_view(arg)]);
                    lemma_nodes_view_push(before, child);
                    assert(nodes_view(new_children@) =~= base + prop_nodes(ev.take(i + 1)));
                }
                changed = true;
            },
            KdlEntry::Argument { .. } => {
                let e = crate::kdl::value::copy_entry(&entries[i]);
                let ghost before = kept@;
                kept.push(e);
                proof {
                    assert(entries_view(kept@) =~= entries_view(before).push(
                        crate::kdl::value::entry_view(e),
                    ));
                }
            },
        }
        i = i + 1;
    }
    proof {
        assert(ev.take(entries@.len() as int) =~= ev);
        lemma_nodes_view(new_children@);
    }
    let children = if new_children.len() > 0 {
        Some(new_children)
    } else {
        None
    };
    let out = KdlNode { ty, name, entries: kept, children };
    proof {
        assert(out@ == with_children(
            Node { entries: arg_entries(nv.entries), ..nv },
            old_children(nv) + prop_nodes(nv.entries),
        ));
    }
    (one_node(out), changed)
}

fn marker_matches_exec(m: &Marker, name: &str) -> (r: bool)
    ensures
        r == marker_matches_v(marker_view(*m), name@),
        r == is_marker_name(seq![*m], name@),
{
    proof {
        law_marker_matches(*m, name@);
    }
    match m {
        Marker::Kind(k) => crate::text::str_eq(name, k.as_str()),
        Marker::Prefix(c) => starts_with_char(name, *c),
    }
}

/// A marker designates a node name exactly when a convention whose only
/// marker it is counts that name as a marker kind: a kind marker the same
/// name, a prefix marker a name that starts with its character.
pub proof fn law_marker_matches(m: Marker, name: Seq<char>)
    ensures
        marker_matches_v(marker_view(m), name) == is_marker_name(seq![m], name),
        marker_matches_v(marker_view(m), name) == marker_matches(m, name),
{
    assert(seq![m][0] == m);
}

proof fn lemma_first_string(es: Seq<KdlEntry>)
    ensures
        first_string_of(entries_view(es)) == (match crate::kdl::value::first_arg_value(es) {
            Some(KdlValue::String(t)) => Some(t@),
            _ => None::<Seq<char>>,
        }),
    decreases es.len(),
{
    if es.len() > 0 {
        assert(entries_view(es).drop_first() =~= entries_view(es.drop_first()));
        lemma_first_string(es.drop_first());
    }
}

/// What a marker node carries.
fn marker_payload_exec(m: &Marker, node: &KdlNode) -> (r: String)
    ensures
        r@ == marker_payload(marker_view(*m), node@),
{
    match m {
        Marker::Kind(_) => {
            proof {
                lemma_first_string(node.entries@);
            }
            match node.first_string_arg() {
                Some(t) => t.to_owned(),
                None => String::new(),
            }
        },
        Marker::Prefix(c) => match crate::text::strip_char_prefix(node.name.as_str(), *c) {
            Some(rest) => rest.to_owned(),
            None => node.name.clone(),
        },
    }
}

fn marker_name_exec(m: &Marker, payload: &str) -> (r: String)
    ensures
        r@ == marker_name(marker_view(*m), payload@),
{
    match m {
        Marker::Kind(k) => k.clone(),
        Marker::Prefix(c) => {
            let mut out = String::new();
            out.push(*c);
            out.push_str(payload);
            proof {
                assert(out@ =~= seq![*c] + payload@);
            }
            out
        },
    }
}

fn string_arg(value: String) -> (r: KdlEntry)
    ensures
        r@ == (Entry::Arg { ty: None, value: Val::Str(value@) }),
{
    KdlEntry::Argument { ty: None, value: KdlValue::String(value) }
}

/// `child` inside a marker node carrying `payload`.
fn marker_wrapper_exec(m: &Marker, payload: &str, child: KdlNode) -> (r: KdlNode)
    ensures
        r@ == marker_wrapper(marker_view(*m), payload@, child@),
{
    let children = one_node(child);
    match m {
        Marker::Kind(k) => {
            let mut es: Vec<KdlEntry> = Vec::new();
            let e = string_arg(payload.to_owned());
            es.push(e);
            proof {
                assert(entries_view(es@) =~= seq![e@]);
            }
            KdlNode { ty: None, name: k.clone(), entries: es, children: Some(children) }
        },
        Marker::Prefix(_) => {
            let es: Vec<KdlEntry> = Vec::new();
            proof {
                assert(entries_view(es@) =~= Seq::<Entry>::empty());
            }
            KdlNode { ty: None, name: marker_name_exec(m, payload), entries: es, children: Some(children) }
        },
    }
}

/// A type annotation as a marker node around the node.
fn expand_type_node(node: KdlNode, skip: bool, marker: &Marker) -> (r: (Vec<KdlNode>, bool))
    ensures
        nodes_view(r.0@) == expand_type_spec(node@, skip, marker_view(*marker)).0,
        r.1 == expand_type_spec(node@, skip, marker_view(*marker)).1,
{
    if skip {
        return (one_node(node), false);
    }
    let KdlNode { ty, name, entries, children } = node;
    match ty {
        Some(annotation) => {
            let inner = KdlNode { ty: None, name, entries, children };
            (one_node(marker_wrapper_exec(marker, annotation.as_str(), inner)), true)
        },
        None => (one_node(KdlNode { ty: None, name, entries, children }), false),
    }
}

/// A marker node around a single child as the child with a type annotation.
fn collapse_type_node(node: KdlNode, skip: bool, source: &Marker) -> (r: (Vec<KdlNode>, bool))
    ensures
        nodes_view(r.0@) == collapse_type_spec(node@, skip, marker_view(*source)).0,
        r.1 == collapse_type_spec(node@, skip, marker_view(*source)).1,
{
    if skip || !marker_matches_exec(source, node.name.as_str()) {
        return (one_node(node), false);
    }
    let payload = marker_payload_exec(source, &node);
    let ghost nv = node@;
    let KdlNode { ty, name, entries, children } = node;
    match children {
        Some(mut c) => {
            proof {
                lemma_nodes_view(c@);
            }
            if c.len() == 1 {
                let child = c.pop().unwrap();
                let KdlNode { ty: _, name: cname, entries: centries, children: cchildren } = child;
                let out = KdlNode { ty: Some(payload), name: cname, entries: centries, children: cchildren };
                proof {
                    assert(out@ == (Node { ty: Some(marker_payload(marker_view(*source), nv)), ..nv.children.unwrap()[0] }));
                }
                (one_node(out), true)
            } else {
                (one_node(KdlNode { ty, name, entries, children: Some(c) }), false)
            }
        },
        None => (one_node(KdlNode { ty, name, entries, children: None }), false),
    }
}

/// The first plain string argument, and the other entries in order.
fn take_first_string_arg(entries: &Vec<KdlEntry>) -> (r: Option<(String, Vec<KdlEntry>)>)
    ensures
        match take_first_string(entries_view(entries@)) {
            Some((s, rest)) => r matches Some(x) && x.0@ == s && entries_view(x.1@) == rest,
            None => r is None,
        },
{
    let ghost ev = entries_view(entries@);
    let mut found: Option<String> = None;
    let mut rest: Vec<KdlEntry> = Vec::new();
    let mut i: usize = 0;
    proof {
        assert(ev.take(0) =~= Seq::<Entry>::empty());
        assert(entries_view(rest@) =~= Seq::<Entry>::empty());
    }
    while i < entries.len()
        invariant
            ev == entries_view(entries@),
            0 <= i <= entries@.len(),
            match found {
                None => take_first_string(ev.take(i as int)) is None && entries_view(rest@) == ev.take(i as int),
                Some(s) => take_first_string(ev) == Some((s@, entries_view(rest@) + ev.skip(i as int))),
            },
        decreases entries@.len() - i,
    {
        proof {
            assert(ev[i as int] == crate::kdl::value::entry_view(entries@[i as int]));
        }
        let mut took = false;
        if found.is_none() {
            if let KdlEntry::Argument { ty: None, value: KdlValue::String(v) } = &entries[i] {
                found = Some(v.clone());
                took = true;
                proof {
                    lemma_take_first_prefix(ev, i as int);
                    assert(ev.skip(i as int).drop_first() =~= ev.skip(i + 1));
                }
            }
        }
        if !took {
            let e = crate::kdl::value::copy_entry(&entries[i]);
            let ghost before = rest@;
            rest.push(e);
            proof {
                assert(entries_view(rest@) =~= entries_view(before).push(e@));
                if found is None {
                    lemma_take_first_none_push(ev, i as int);
                    assert(ev.take(i + 1) =~= ev.take(i as int).push(ev[i as int]));
                } else {
                    assert(ev.skip(i as int) =~= seq![ev[i as int]] + ev.skip(i + 1));
                }
            }
        }
        i = i + 1;
    }
    proof {
        assert(ev.take(entries@.len() as int) =~= ev);
        assert(ev.skip(entries@.len() as int) =~= Seq::<Entry>::empty());
    }
    match found {
        Some(s) => {
            proof {
                assert(entries_view(rest@) + Seq::<Entry>::empty() =~= entries_view(rest@));
            }
            Some((s, rest))
        },
        None => None,
    }
}

proof fn lemma_take_first_prefix(ev: Seq<Entry>, i: int)
    requires
        0 <= i < ev.len(),
        take_first_string(ev.take(i)) is None,
        ev[i] matches Entry::Arg { ty: None, value: Val::Str(_) },
    ensures
        take_first_string(ev) == Some((ev[i]->Arg_value->Str_0, ev.take(i) + ev.skip(i + 1))),
    decreases i,
{
    if i > 0 {
        assert(ev.take(i).drop_first() =~= ev.drop_first().take(i - 1));
        assert(ev.drop_first()[i - 1] == ev[i]);
        lemma_take_first_prefix(ev.drop_first(), i - 1);
        assert(seq![ev[0]] + (ev.drop_first().take(i - 1) + ev.drop_first().skip(i)) =~= ev.take(i)
            + ev.skip(i + 1));
    } else {
        assert(ev.take(0) + ev.skip(1) =~= ev.drop_first());
    }
}

proof fn lemma_take_first_none_push(ev: Seq<Entry>, i: int)
    requires
        0 <= i < ev.len(),
        take_first_string(ev.take(i)) is None,
        !(ev[i] matches Entry::Arg { ty: None, value: Val::Str(_) }),
    ensures
        take_first_string(ev.take(i + 1)) is None,
    decreases i,
{
    if i > 0 {
        assert(ev.take(i).drop_first() =~= ev.drop_first().take(i - 1));
        assert(ev.take(i + 1).drop_first() =~= ev.drop_first().take(i));
        assert(ev.drop_first()[i - 1] == ev[i]);
        assert(ev.take(i)[0] == ev[0]);
        assert(ev.take(i + 1)[0] == ev[0]);
        lemma_take_first_none_push(ev.drop_first(), i - 1);
        assert(take_first_string(ev.drop_first().take(i)) is None);
        assert(take_first_string(ev.take(i + 1).drop_first()) is None);
        assert(!(ev[0] matches Entry::Arg { ty: None, value: Val::Str(_) }));
        assert(ev.take(i + 1).len() > 0);
    } else {
        assert(ev.take(1).drop_first() =~= Seq::<Entry>::empty());
        assert(ev.take(1)[0] == ev[0]);
    }
}

/// The identifier as a marker node that takes over the node's children.
fn expand_kind_node(node: KdlNode, skip: bool, marker: &Marker) -> (r: (Vec<KdlNode>, bool))
    ensures
        nodes_view(r.0@) == expand_kind_spec(node@, skip, marker_view(*marker)).0,
        r.1 == expand_kind_spec(node@, skip, marker_view(*marker)).1,
{
    if skip {
        return (one_node(node), false);
    }
    let ghost nv = node@;
    let KdlNode { ty, name, entries, children } = node;
    match take_first_string_arg(&entries) {
        None => {
            let none: Vec<KdlEntry> = Vec::new();
            proof {
                assert(entries_view(none@) =~= Seq::<Entry>::empty());
            }
            (one_node(KdlNode { ty, name, entries: none, children }), false)
        },
        Some((identifier, rest)) => {
            let none: Vec<KdlEntry> = Vec::new();
            proof {
                assert(entries_view(none@) =~= Seq::<Entry>::empty());
            }
            let marker_node = KdlNode {
                ty: None,
                name: marker_name_exec(marker, identifier.as_str()),
                entries: none,
                children,
            };
            let out = KdlNode { ty, name, entries: rest, children: Some(one_node(marker_node)) };
            (one_node(out), true)
        },
    }
}

/// A single marker child as the node's first argument.
fn collapse_kind_node(node: KdlNode, skip: bool, source: &Marker) -> (r: (Vec<KdlNode>, bool))
    ensures
        nodes_view(r.0@) == collapse_kind_spec(node@, skip, marker_view(*source)).0,
        r.1 == collapse_kind_spec(node@, skip, marker_view(*source)).1,
{
    if skip {
        return (one_node(node), false);
    }
    let ghost nv = node@;
    let KdlNode { ty, name, entries, children } = node;
    match children {
        None => (one_node(KdlNode { ty, name, entries, children: None }), false),
        Some(mut c) => {
            proof {
                lemma_nodes_view(c@);
            }
            if c.len() != 1 || !marker_matches_exec(source, c[0].name.as_str()) {
                return (one_node(KdlNode { ty, name, entries, children: Some(c) }), false);
            }
            let marker = c.pop().unwrap();
            let identifier = marker_payload_exec(source, &marker);
            let mut es: Vec<KdlEntry> = Vec::new();
            let e = string_arg(identifier);
            es.push(e);
            let mut old_entries = entries;
            es.append(&mut old_entries);
            proof {
                assert(entries_view(es@) =~= seq![e@] + nv.entries);
            }
            let out = KdlNode { ty, name, entries: es, children: marker.children };
            (one_node(out), true)
        },
    }
}

/// `r` reports `changed`, with `reason` when nothing changed.
pub open spec fn reports(r: TransformOutcome, changed: bool, reason: Seq<char>) -> bool {
    match r {
        TransformOutcome::Applied => changed,
        TransformOutcome::NoOp { reason: x } => !changed && x@ == reason,
    }
}

/// `Applied` when something changed, else `NoOp` with `reason`.
pub(crate) fn outcome_of(changed: bool, reason: &str) -> (r: TransformOutcome)
    ensures
        reports(r, changed, reason@),
{
    outcome(changed, reason)
}

fn outcome(changed: bool, reason: &str) -> (r: TransformOutcome)
    ensures
        reports(r, changed, reason@),
{
    if changed {
        TransformOutcome::Applied
    } else {
        TransformOutcome::NoOp { reason: reason.to_owned() }
    }
}

proof fn lemma_nodes_view_add(a: Seq<KdlNode>, b: Seq<KdlNode>)
    ensures
        nodes_view(a + b) == nodes_view(a) + nodes_view(b),
    decreases b.len(),
{
    if b.len() == 0 {
        assert(a + b =~= a);
        assert(nodes_view(a) + nodes_view(b) =~= nodes_view(a));
    } else {
        assert((a + b).drop_last() =~= a + b.drop_last());
        assert((a + b).last() == b.last());
        lemma_nodes_view_add(a, b.drop_last());
        assert(b =~= b.drop_last().push(b.last()));
        lemma_nodes_view_push(b.drop_last(), b.last());
        assert(nodes_view(a + b) =~= nodes_view(a) + nodes_view(b));
    }
}

fn apply_node_op(op: &NodeOp, conv: &Convention, node: KdlNode, skip: bool) -> (r: (
    Vec<KdlNode>,
    bool,
))
    ensures
        nodes_view(r.0@) == apply_op(op_view(*op), *conv, node@, skip).0,
        r.1 == apply_op(op_view(*op), *conv, node@, skip).1,
{
    match op {
        NodeOp::Nest => {
            let s = skip || conv.is_marker_kind(node.name.as_str());
            nest_node(node, s)
        },
        NodeOp::Flatten => {
            let s = skip || conv.is_marker_kind(node.name.as_str());
            flatten_node(node, s)
        },
        NodeOp::ExpandProperties => expand_properties_node(node, skip),
        NodeOp::ExpandType(m) => expand_type_node(node, skip, m),
        NodeOp::CollapseType(m) => collapse_type_node(node, skip, m),
        NodeOp::ExpandKind(m) => expand_kind_node(node, skip, m),
        NodeOp::CollapseKind(m) => collapse_kind_node(node, skip, m),
    }
}

fn walk_node_exec(op: &NodeOp, conv: &Convention, node: &KdlNode, pm: bool) -> (r: (
    Vec<KdlNode>,
    bool,
))
    ensures
        nodes_view(r.0@) == walk_node(op_view(*op), *conv, node@, pm).0,
        r.1 == walk_node(op_view(*op), *conv, node@, pm).1,
    decreases node,
{
    match &node.children {
        Some(c) => {
            proof {
                assert(decreases_to!(node => node.children));
            }
            let skip_children = conv.is_marker_kind(node.name.as_str());
            let (children, cc) = walk_nodes_exec(op, conv, c, skip_children);
            proof {
                lemma_nodes_view(children@);
            }
            let kids = if children.len() > 0 {
                Some(children)
            } else {
                None
            };
            let rebuilt = KdlNode {
                ty: crate::kdl::value::copy_opt_text(&node.ty),
                name: node.name.clone(),
                entries: crate::kdl::value::copy_entries(&node.entries),
                children: kids,
            };
            let (out, c2) = apply_node_op(op, conv, rebuilt, pm);
            (out, cc || c2)
        },
        None => apply_node_op(op, conv, crate::kdl::value::copy_node(node), pm),
    }
}

fn walk_nodes_exec(op: &NodeOp, conv: &Convention, nodes: &Vec<KdlNode>, pm: bool) -> (r: (
    Vec<KdlNode>,
    bool,
))
    ensures
        nodes_view(r.0@) == walk_nodes(op_view(*op), *conv, nodes_view(nodes@), pm).0,
        r.1 == walk_nodes(op_view(*op), *conv, nodes_view(nodes@), pm).1,
    decreases nodes,
{
    let mut out: Vec<KdlNode> = Vec::new();
    let mut changed = false;
    let mut i: usize = 0;
    proof {
        assert(nodes@.take(0) =~= Seq::<KdlNode>::empty());
        assert(nodes_view(nodes@.take(0)) =~= Seq::<Node>::empty());
        assert(nodes_view(out@) =~= Seq::<Node>::empty());
    }
    while i < nodes.len()
        invariant
            0 <= i <= nodes@.len(),
            nodes_view(out@) == walk_nodes(op_view(*op), *conv, nodes_view(nodes@.take(i as int)), pm).0,
            changed == walk_nodes(op_view(*op), *conv, nodes_view(nodes@.take(i as int)), pm).1,
        decreases nodes@.len() - i,
    {
        proof {
            assert(decreases_to!(nodes => nodes@[i as int]));
            assert(nodes@.take(i + 1) =~= nodes@.take(i as int).push(nodes@[i as int]));
            lemma_nodes_view_push(nodes@.take(i as int), nodes@[i as int]);
            let sv = nodes_view(nodes@.take(i + 1));
            assert(sv.drop_last() =~= nodes_view(nodes@.take(i as int)));
            assert(sv.last() == nodes@[i as int]@);
        }
        let (mut part, c) = walk_node_exec(op, conv, &nodes[i], pm);
        let ghost before = out@;
        let ghost pv = part@;
        out.append(&mut part);
        proof {
            lemma_nodes_view_add(before, pv);
        }
        changed = changed || c;
        i = i + 1;
    }
    proof {
        assert(nodes@.take(nodes@.len() as int) =~= nodes@);
    }
    (out, changed)
}

/// The nodes of a document rewritten by `op`.
pub open spec fn rewritten(op: OpV, conv: Convention, d: Document) -> (Seq<Node>, bool) {
    walk_nodes(op, conv, nodes_view(d.nodes_spec()), false)
}

fn rewrite(doc: Document, conv: &Convention, op: NodeOp, reason: &str) -> (r: (Document, TransformOutcome))
    ensures
        nodes_view(r.0.nodes_spec()) == rewritten(op_view(op), *conv, doc).0,
        reports(r.1, rewritten(op_view(op), *conv, doc).1, reason@),
{
    let (nodes, changed) = walk_nodes_exec(&op, conv, doc.nodes_ref(), false);
    (Document::from_kdl(KdlDocument { nodes }), outcome(changed, reason))
}

impl Document {
    /// Dotted names as nested namespaces: `a.b.c` becomes `a { b { c } }`.
    /// Names under marker nodes, and marker nodes, are kept.
    pub fn nest(self, conv: &Convention) -> (r: (Document, TransformOutcome))
        ensures
            nodes_view(r.0.nodes_spec()) == rewritten(OpV::Nest, *conv, self).0,
            reports(r.1, rewritten(OpV::Nest, *conv, self).1, "no dotted namespace node"@),
    {
        rewrite(self, conv, NodeOp::Nest, "no dotted namespace node")
    }

    /// Chains of namespace nodes as dotted names: `a { b { c } }` becomes
    /// `a.b.c`.
    pub fn flatten(self, conv: &Convention) -> (r: (Document, TransformOutcome))
        ensures
            nodes_view(r.0.nodes_spec()) == rewritten(OpV::Flatten, *conv, self).0,
            reports(r.1, rewritten(OpV::Flatten, *conv, self).1, "no pure namespace chain"@),
    {
        rewrite(self, conv, NodeOp::Flatten, "no pure namespace chain")
    }

    /// Properties as child nodes: `n key=v` becomes `n { key v }`.
    pub fn expand_properties(self, conv: &Convention) -> (r: (Document, TransformOutcome))
        ensures
            nodes_view(r.0.nodes_spec()) == rewritten(OpV::ExpandProperties, *conv, self).0,
            reports(r.1, rewritten(OpV::ExpandProperties, *conv, self).1, "no properties"@),
    {
        rewrite(self, conv, NodeOp::ExpandProperties, "no properties")
    }

    /// Type annotations as marker nodes around the annotated node.
    pub fn expand_type_annotations(self, marker: &Marker, conv: &Convention) -> (r: (
        Document,
        TransformOutcome,
    ))
        ensures
            nodes_view(r.0.nodes_spec()) == rewritten(
                OpV::ExpandType(marker_view(*marker)),
                *conv,
                self,
            ).0,
            reports(
                r.1,
                rewritten(OpV::ExpandType(marker_view(*marker)), *conv, self).1,
                "no type annotations"@,
            ),
    {
        rewrite(self, conv, NodeOp::ExpandType(marker.clone_marker()), "no type annotations")
    }

    /// Marker nodes around a single node as type annotations.
    pub fn collapse_type_annotations(self, source: &Marker, conv: &Convention) -> (r: (
        Document,
        TransformOutcome,
    ))
        ensures
            nodes_view(r.0.nodes_spec()) == rewritten(
                OpV::CollapseType(marker_view(*source)),
                *conv,
                self,
            ).0,
            reports(
                r.1,
                rewritten(OpV::CollapseType(marker_view(*source)), *conv, self).1,
                "no type marker"@,
            ),
    {
        rewrite(self, conv, NodeOp::CollapseType(source.clone_marker()), "no type marker")
    }

    /// Identifiers (first plain string arguments) as marker child nodes.
    pub fn expand_kind_keyword(self, marker: &Marker, conv: &Convention) -> (r: (
        Document,
        TransformOutcome,
    ))
        ensures
            nodes_view(r.0.nodes_spec()) == rewritten(
                OpV::ExpandKind(marker_view(*marker)),
                *conv,
                self,
            ).0,
            reports(
                r.1,
                rewritten(OpV::ExpandKind(marker_view(*marker)), *conv, self).1,
                "no kind keyword"@,
            ),
    {
        rewrite(self, conv, NodeOp::ExpandKind(marker.clone_marker()), "no kind keyword")
    }

    /// Single marker child nodes as identifiers.
    pub fn collapse_kind_keyword(self, source: &Marker, conv: &Convention) -> (r: (
        Document,
        TransformOutcome,
    ))
        ensures
            nodes_view(r.0.nodes_spec()) == rewritten(
                OpV::CollapseKind(marker_view(*source)),
                *conv,
                self,
            ).0,
            reports(
                r.1,
                rewritten(OpV::CollapseKind(marker_view(*source)), *conv, self).1,
                "no identifier marker"@,
            ),
    {
        rewrite(self, conv, NodeOp::CollapseKind(source.clone_marker()), "no identifier marker")
    }
}

// ---- child nodes as properties ----
/// A child `key (t)v` (no type, no children, one argument) as the property
/// `key=(t)v`.
pub open spec fn property_from_child(c: Node) -> Option<Entry> {
    if c.ty is Some || c.children is Some || c.entries.len() != 1 {
        None
    } else {
        match c.entries[0] {
            Entry::Arg { ty, value } => Some(Entry::Prop { key: c.name, ty, value }),
            _ => None,
        }
    }
}

/// The reason given for a child that has several entries.
pub open spec fn multiple_entries(name: Seq<char>) -> Seq<char> {
    "child "@ + name + " has multiple entries"@
}

/// Children collapsed into properties appended to `es`, in order: the
/// entries, the children left, and whether one was collapsed. A child that
/// is no property and has several entries stops it.
pub open spec fn collapse_children(es: Seq<Entry>, cs: Seq<Node>) -> Result<
    (Seq<Entry>, Seq<Node>, bool),
    Seq<char>,
>
    decreases cs.len(),
{
    if cs.len() == 0 {
        Ok((es, Seq::empty(), false))
    } else {
        match collapse_children(es, cs.drop_last()) {
            Err(e) => Err(e),
            Ok((e2, rem, ch)) => match property_from_child(cs.last()) {
                Some(p) => Ok((e2.push(p), rem, true)),
                None => if cs.last().entries.len() > 1 {
                    Err(multiple_entries(cs.last().name))
                } else {
                    Ok((e2, rem.push(cs.last()), ch))
                },
            },
        }
    }
}

pub open spec fn collapse_own(n: Node) -> Result<(Node, bool), Seq<char>> {
    match n.children {
        None => Ok((n, false)),
        Some(cs) => match collapse_children(n.entries, cs) {
            Err(e) => Err(e),
            Ok((es, rem, ch)) => Ok((with_children(Node { entries: es, ..n }, rem), ch)),
        },
    }
}

/// Property children collapsed bottom-up; children of marker nodes are
/// left as they are.
pub open spec fn collapse_props_node(conv: Convention, n: Node, pm: bool) -> Result<
    (Node, bool),
    Seq<char>,
>
    decreases n,
{
    let inner: Result<(Node, bool), Seq<char>> = match n.children {
        Some(c) => match collapse_props_nodes(conv, c, is_marker(conv, n.name)) {
            Err(e) => Err(e),
            Ok((cs, ch)) => Ok((with_children(n, cs), ch)),
        },
        None => Ok((n, false)),
    };
    match inner {
        Err(e) => Err(e),
        Ok((n1, c1)) => if pm {
            Ok((n1, c1))
        } else {
            match collapse_own(n1) {
                Err(e) => Err(e),
                Ok((n2, c2)) => Ok((n2, c1 || c2)),
            }
        },
    }
}

pub open spec fn collapse_props_nodes(conv: Convention, ns: Seq<Node>, pm: bool) -> Result<
    (Seq<Node>, bool),
    Seq<char>,
>
    decreases ns,
{
    if ns.len() == 0 {
        Ok((Seq::empty(), false))
    } else {
        match collapse_props_nodes(conv, ns.drop_last(), pm) {
            Err(e) => Err(e),
            Ok((a, ca)) => match collapse_props_node(conv, ns.last(), pm) {
                Err(e) => Err(e),
                Ok((b, cb)) => Ok((a.push(b), ca || cb)),
            },
        }
    }
}

fn property_from_child_exec(child: &KdlNode) -> (r: Option<KdlEntry>)
    ensures
        match property_from_child(child@) {
            Some(p) => r matches Some(e) && e@ == p,
            None => r is None,
        },
{
    proof {
        assert(entries_view(child.entries@).len() == child.entries@.len());
    }
    if child.ty.is_some() || child.children.is_some() || child.entries.len() != 1 {
        return None;
    }
    proof {
        assert(entries_view(child.entries@)[0] == crate::kdl::value::entry_view(child.entries@[0]));
    }
    match &child.entries[0] {
        KdlEntry::Argument { ty, value } => Some(
            KdlEntry::Property {
                key: child.name.clone(),
                ty: crate::kdl::value::copy_opt_text(ty),
                value: crate::kdl::value::copy_value(value),
            },
        ),
        KdlEntry::Property { .. } => None,
    }
}

fn multiple_entries_exec(name: &str) -> (r: String)
    ensures
        r@ == multiple_entries(name@),
{
    let mut out = String::new();
    out.push_str("child ");
    out.push_str(name);
    out.push_str(" has multiple entries");
    proof {
        assert(out@ =~= multiple_entries(name@));
    }
    out
}

/// Children collapsed into properties appended to `es`.
fn collapse_children_exec(entries: &Vec<KdlEntry>, cs: &Vec<KdlNode>) -> (r: Result<
    (Vec<KdlEntry>, Vec<KdlNode>, bool),
    String,
>)
    ensures
        match collapse_children(entries_view(entries@), nodes_view(cs@)) {
            Ok((e2, rem, ch)) => r matches Ok(x) && entries_view(x.0@) == e2 && nodes_view(x.1@)
                == rem && x.2 == ch,
            Err(e) => r matches Err(x) && x@ == e,
        },
{
    let ghost ev = entries_view(entries@);
    let ghost csv = nodes_view(cs@);
    proof {
        lemma_nodes_view(cs@);
    }
    let mut es = crate::kdl::value::copy_entries(entries);
    let mut remaining: Vec<KdlNode> = Vec::new();
    let mut changed = false;
    let mut i: usize = 0;
    proof {
        assert(csv.take(0) =~= Seq::<Node>::empty());
        assert(nodes_view(remaining@) =~= Seq::<Node>::empty());
    }
    while i < cs.len()
        invariant
            ev == entries_view(entries@),
            csv == nodes_view(cs@),
            csv.len() == cs@.len(),
            forall|k: int| 0 <= k < cs@.len() ==> #[trigger] csv[k] == cs@[k]@,
            0 <= i <= cs@.len(),
            collapse_children(ev, csv.take(i as int)) == Ok::<
                (Seq<Entry>, Seq<Node>, bool),
                Seq<char>,
            >((entries_view(es@), nodes_view(remaining@), changed)),
        decreases cs@.len() - i,
    {
        proof {
            assert(csv.take(i + 1).drop_last() =~= csv.take(i as int));
            assert(csv.take(i + 1).last() == cs@[i as int]@);
            assert(entries_view(cs@[i as int].entries@).len() == cs@[i as int].entries@.len());
        }
        match property_from_child_exec(&cs[i]) {
            Some(entry) => {
                let ghost before = es@;
                es.push(entry);
                proof {
                    assert(entries_view(es@) =~= entries_view(before).push(entry@));
                }
                changed = true;
            },
            None => {
                if cs[i].entries.len() > 1 {
                    proof {
                        lemma_collapse_children_err_extends(ev, csv, i as int);
                    }
                    return Err(multiple_entries_exec(cs[i].name.as_str()));
                }
                let c = crate::kdl::value::copy_node(&cs[i]);
                let ghost before = remaining@;
                remaining.push(c);
                proof {
                    lemma_nodes_view_push(before, c);
                }
            },
        }
        i = i + 1;
    }
    proof {
        assert(csv.take(cs@.len() as int) =~= csv);
    }
    Ok((es, remaining, changed))
}

/// The node with its property children collapsed into properties.
fn collapse_property_children(node: KdlNode) -> (r: Result<(KdlNode, bool), String>)
    ensures
        match collapse_own(node@) {
            Ok((n, ch)) => r matches Ok(x) && x.0@ == n && x.1 == ch,
            Err(e) => r matches Err(x) && x@ == e,
        },
{
    let KdlNode { ty, name, entries, children } = node;
    let cs = match children {
        Some(cs) => cs,
        None => {
            return Ok((KdlNode { ty, name, entries, children: None }, false));
        },
    };
    match collapse_children_exec(&entries, &cs) {
        Err(e) => Err(e),
        Ok((es, remaining, changed)) => {
            proof {
                lemma_nodes_view(remaining@);
            }
            let kids = if remaining.len() > 0 {
                Some(remaining)
            } else {
                None
            };
            Ok((KdlNode { ty, name, entries: es, children: kids }, changed))
        },
    }
}

fn collapse_props_node_exec(conv: &Convention, node: &KdlNode, pm: bool) -> (r: Result<
    (KdlNode, bool),
    String,
>)
    ensures
        match collapse_props_node(*conv, node@, pm) {
            Ok((n, ch)) => r matches Ok(x) && x.0@ == n && x.1 == ch,
            Err(e) => r matches Err(x) && x@ == e,
        },
    decreases node,
{
    let mut c1 = false;
    let n1 = match &node.children {
        Some(c) => {
            proof {
                assert(decreases_to!(node => node.children));
            }
            let skip = conv.is_marker_kind(node.name.as_str());
            match collapse_props_nodes_exec(conv, c, skip) {
                Err(e) => {
                    return Err(e);
                },
                Ok((cs, ch)) => {
                    proof {
                        lemma_nodes_view(cs@);
                    }
                    c1 = ch;
                    let kids = if cs.len() > 0 {
                        Some(cs)
                    } else {
                        None
                    };
                    KdlNode {
                        ty: crate::kdl::value::copy_opt_text(&node.ty),
                        name: node.name.clone(),
                        entries: crate::kdl::value::copy_entries(&node.entries),
                        children: kids,
                    }
                },
            }
        },
        None => crate::kdl::value::copy_node(node),
    };
    if pm {
        return Ok((n1, c1));
    }
    match collapse_property_children(n1) {
        Err(e) => Err(e),
        Ok((n2, c2)) => Ok((n2, c1 || c2)),
    }
}

fn collapse_props_nodes_exec(conv: &Convention, nodes: &Vec<KdlNode>, pm: bool) -> (r: Result<
    (Vec<KdlNode>, bool),
    String,
>)
    ensures
        match collapse_props_nodes(*conv, nodes_view(nodes@), pm) {
            Ok((ns, ch)) => r matches Ok(x) && nodes_view(x.0@) == ns && x.1 == ch,
            Err(e) => r matches Err(x) && x@ == e,
        },
    decreases nodes,
{
    let mut out: Vec<KdlNode> = Vec::new();
    let mut changed = false;
    let mut i: usize = 0;
    proof {
        assert(nodes@.take(0) =~= Seq::<KdlNode>::empty());
        assert(nodes_view(nodes@.take(0)) =~= Seq::<Node>::empty());
        assert(nodes_view(out@) =~= Seq::<Node>::empty());
    }
    while i < nodes.len()
        invariant
            0 <= i <= nodes@.len(),
            collapse_props_nodes(*conv, nodes_view(nodes@.take(i as int)), pm) == Ok::<
                (Seq<Node>, bool),
                Seq<char>,
            >((nodes_view(out@), changed)),
        decreases nodes@.len() - i,
    {
        proof {
            assert(decreases_to!(nodes => nodes@[i as int]));
            assert(nodes@.take(i + 1) =~= nodes@.take(i as int).push(nodes@[i as int]));
            lemma_nodes_view_push(nodes@.take(i as int), nodes@[i as int]);
            let sv = nodes_view(nodes@.take(i + 1));
            assert(sv.drop_last() =~= nodes_view(nodes@.take(i as int)));
            assert(sv.last() == nodes@[i as int]@);
        }
        match collapse_props_node_exec(conv, &nodes[i], pm) {
            Err(e) => {
                proof {
                    lemma_nodes_view_take(nodes@, i + 1);
                    lemma_nodes_view(nodes@);
                    lemma_collapse_nodes_err_extends(*conv, nodes_view(nodes@), i as int, pm);
                }
                return Err(e);
            },
            Ok((n, c)) => {
                let ghost before = out@;
                out.push(n);
                proof {
                    lemma_nodes_view_push(before, n);
                }
                changed = changed || c;
            },
        }
        i = i + 1;
    }
    proof {
        assert(nodes@.take(nodes@.len() as int) =~= nodes@);
    }
    Ok((out, changed))
}

proof fn lemma_nodes_view_take(ns: Seq<KdlNode>, k: int)
    requires
        0 <= k <= ns.len(),
    ensures
        nodes_view(ns.take(k)) == nodes_view(ns).take(k),
{
    lemma_nodes_view(ns);
    lemma_nodes_view(ns.take(k));
    assert(nodes_view(ns.take(k)) =~= nodes_view(ns).take(k));
}

/// An error on a prefix of the children is the error on all of them.
proof fn lemma_collapse_children_err_extends(es: Seq<Entry>, cs: Seq<Node>, i: int)
    requires
        0 <= i < cs.len(),
        collapse_children(es, cs.take(i + 1)) is Err,
    ensures
        collapse_children(es, cs) == collapse_children(es, cs.take(i + 1)),
    decreases cs.len() - i,
{
    if i + 1 < cs.len() {
        assert(cs.drop_last().take(i + 1) =~= cs.take(i + 1));
        lemma_collapse_children_err_extends(es, cs.drop_last(), i);
    } else {
        assert(cs.take(i + 1) =~= cs);
    }
}

/// An error on a prefix of the nodes is the error on all of them.
proof fn lemma_collapse_nodes_err_extends(conv: Convention, ns: Seq<Node>, i: int, pm: bool)
    requires
        0 <= i < ns.len(),
        collapse_props_nodes(conv, ns.take(i + 1), pm) is Err,
    ensures
        collapse_props_nodes(conv, ns, pm) == collapse_props_nodes(conv, ns.take(i + 1), pm),
    decreases ns.len() - i,
{
    if i + 1 < ns.len() {
        assert(ns.drop_last().take(i + 1) =~= ns.take(i + 1));
        lemma_collapse_nodes_err_extends(conv, ns.drop_last(), i, pm);
    } else {
        assert(ns.take(i + 1) =~= ns);
    }
}

impl Document {
    /// Child nodes `key v` as properties `key=v`; when a child that is no
    /// property has several entries, the document is kept and that is the
    /// reason.
    pub fn collapse_properties(self, conv: &Convention) -> (r: (Document, TransformOutcome))
        ensures
            match collapse_props_nodes(*conv, nodes_view(self.nodes_spec()), false) {
                Ok((ns, ch)) => nodes_view(r.0.nodes_spec()) == ns && reports(
                    r.1,
                    ch,
                    "no property children"@,
                ),
                Err(e) => r.0.nodes_spec() == self.nodes_spec() && (r.1 matches TransformOutcome::NoOp {
                    reason,
                } && reason@ == e),
            },
    {
        match collapse_props_nodes_exec(conv, self.nodes_ref(), false) {
            Ok((nodes, changed)) => (
                Document::from_kdl(KdlDocument { nodes }),
                outcome(changed, "no property children"),
            ),
            Err(reason) => (self, TransformOutcome::NoOp { reason }),
        }
    }
}

} // verus!
