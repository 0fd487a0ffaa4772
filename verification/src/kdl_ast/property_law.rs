//! Properties as children and back: a document whose properties stand after
//! its arguments is given back when its properties are expanded into child
//! nodes and those are collapsed into properties again.
use vstd::prelude::*;
use crate::kdl::value::{Entry, Node};
use super::convention::Convention;
use super::render::rendered;
use super::transform::{
    arg_entries, collapse_children, collapse_own, collapse_props_node, collapse_props_nodes,
    is_marker, old_children, prop_nodes, property_from_child, walk_node, walk_nodes, with_children,
    OpV,
};

verus! {

/// The properties among `es`, in order.
pub open spec fn prop_entries(es: Seq<Entry>) -> Seq<Entry>
    decreases es.len(),
{
    if es.len() == 0 {
        Seq::empty()
    } else if es.last() is Prop {
        prop_entries(es.drop_last()).push(es.last())
    } else {
        prop_entries(es.drop_last())
    }
}

/// No argument follows a property.
pub open spec fn props_after_args(es: Seq<Entry>) -> bool {
    forall|i: int, j: int| 0 <= i < j < es.len() && (#[trigger] es[i]) is Prop ==> (#[trigger] es[j]) is Prop
}

/// A child that collapsing keeps as a child: it is no `key value` node,
/// and it has at most one entry.
pub open spec fn plain_child(c: Node) -> bool {
    property_from_child(c) is None && c.entries.len() <= 1
}

/// A node, and every node below it, in the collapsed form that expanding
/// and collapsing properties give back: its name is no marker name, its
/// properties stand after its arguments, and a block of children it has is
/// not empty and holds plain children only.
pub open spec fn canonical_node(conv: Convention, n: Node) -> bool
    decreases n,
{
    &&& !is_marker(conv, n.name)
    &&& props_after_args(n.entries)
    &&& match n.children {
        Some(c) => c.len() > 0 && canonical_nodes(conv, c) && forall|i: int|
            0 <= i < c.len() ==> plain_child(#[trigger] c[i]),
        None => true,
    }
}

/// Each of the nodes is as `canonical_node` asks.
pub open spec fn canonical_nodes(conv: Convention, ns: Seq<Node>) -> bool
    decreases ns,
{
    if ns.len() == 0 {
        true
    } else {
        canonical_nodes(conv, ns.drop_last()) && canonical_node(conv, ns.last())
    }
}

proof fn lemma_all_args(es: Seq<Entry>)
    requires
        forall|i: int| 0 <= i < es.len() ==> (#[trigger] es[i]) is Arg,
    ensures
        arg_entries(es) == es,
        prop_entries(es).len() == 0,
        prop_nodes(es).len() == 0,
    decreases es.len(),
{
    if es.len() > 0 {
        let dl = es.drop_last();
        assert forall|i: int| 0 <= i < dl.len() implies (#[trigger] dl[i]) is Arg by {
            assert(dl[i] == es[i]);
        }
        lemma_all_args(dl);
        assert(es[es.len() - 1] is Arg);
        assert(dl.push(es.last()) =~= es);
    }
}

proof fn lemma_split_entries(es: Seq<Entry>)
    requires
        props_after_args(es),
    ensures
        es == arg_entries(es) + prop_entries(es),
        prop_nodes(es).len() == prop_entries(es).len(),
    decreases es.len(),
{
    if es.len() > 0 {
        let dl = es.drop_last();
        if es.last() is Prop {
            assert forall|i: int, j: int|
                0 <= i < j < dl.len() && (#[trigger] dl[i]) is Prop implies (#[trigger] dl[j]) is Prop by {
                assert(dl[i] == es[i] && dl[j] == es[j]);
            }
            lemma_split_entries(dl);
            assert(arg_entries(es) == arg_entries(dl));
            assert(prop_entries(es) == prop_entries(dl).push(es.last()));
            assert(prop_nodes(es).len() == prop_nodes(dl).len() + 1);
            assert(dl.push(es.last()) =~= es);
            assert(es =~= arg_entries(es) + prop_entries(es));
        } else {
            assert forall|i: int| 0 <= i < es.len() implies (#[trigger] es[i]) is Arg by {
                if es[i] is Prop && i < es.len() - 1 {
                    assert(es[es.len() - 1] is Prop);
                }
            }
            lemma_all_args(es);
            assert(es =~= arg_entries(es) + prop_entries(es));
        }
    } else {
        assert(es =~= arg_entries(es) + prop_entries(es));
    }
}

proof fn lemma_expand_len(conv: Convention, ns: Seq<Node>, pm: bool)
    ensures
        walk_nodes(OpV::ExpandProperties, conv, ns, pm).0.len() == ns.len(),
    decreases ns.len(),
{
    if ns.len() > 0 {
        lemma_expand_len(conv, ns.drop_last(), pm);
        let n = ns.last();
        match n.children {
            Some(c) => {
                let inner = walk_nodes(OpV::ExpandProperties, conv, c, is_marker(conv, n.name));
                assert(walk_node(OpV::ExpandProperties, conv, n, pm).0.len() == 1);
            },
            None => {
                assert(walk_node(OpV::ExpandProperties, conv, n, pm).0.len() == 1);
            },
        }
    }
}

/// Plain children are kept as children.
proof fn lemma_collapse_plain(es: Seq<Entry>, cs: Seq<Node>)
    requires
        forall|i: int| 0 <= i < cs.len() ==> plain_child(#[trigger] cs[i]),
    ensures
        collapse_children(es, cs) matches Ok((e, r, _)) && e == es && r == cs,
    decreases cs.len(),
{
    if cs.len() > 0 {
        let dl = cs.drop_last();
        assert forall|i: int| 0 <= i < dl.len() implies plain_child(#[trigger] dl[i]) by {
            assert(dl[i] == cs[i]);
        }
        lemma_collapse_plain(es, dl);
        assert(plain_child(cs[cs.len() - 1]));
        assert(dl.push(cs.last()) =~= cs);
    }
}

/// The nodes made of properties are collapsed into those properties,
/// after the entries; plain children before them stay.
proof fn lemma_collapse_props(es: Seq<Entry>, cs: Seq<Node>, ps: Seq<Entry>)
    requires
        forall|i: int| 0 <= i < cs.len() ==> plain_child(#[trigger] cs[i]),
    ensures
        collapse_children(es, cs + prop_nodes(ps)) matches Ok((e, r, _)) && e == es + prop_entries(
            ps,
        ) && r == cs,
    decreases ps.len(),
{
    if ps.len() == 0 {
        assert(cs + prop_nodes(ps) =~= cs);
        assert(es + prop_entries(ps) =~= es);
        lemma_collapse_plain(es, cs);
    } else {
        let dl = ps.drop_last();
        lemma_collapse_props(es, cs, dl);
        match ps.last() {
            Entry::Prop { key, ty, value } => {
                let n = Node {
                    ty: None,
                    name: key,
                    entries: seq![Entry::Arg { ty, value }],
                    children: None,
                };
                assert(cs + prop_nodes(ps) =~= (cs + prop_nodes(dl)).push(n));
                assert((cs + prop_nodes(ps)).drop_last() =~= cs + prop_nodes(dl));
                assert(property_from_child(n) == Some(ps.last()));
                assert(es + prop_entries(ps) =~= (es + prop_entries(dl)).push(ps.last()));
            },
            Entry::Arg { .. } => {},
        }
    }
}

proof fn lemma_cnodes_append(conv: Convention, xs: Seq<Node>, ys: Seq<Node>, a: Seq<Node>, b: Seq<Node>)
    requires
        collapse_props_nodes(conv, xs, false) matches Ok((o, _)) && o == a,
        collapse_props_nodes(conv, ys, false) matches Ok((o, _)) && o == b,
    ensures
        collapse_props_nodes(conv, xs + ys, false) matches Ok((o, _)) && o == a + b,
    decreases ys.len(),
{
    if ys.len() == 0 {
        assert(xs + ys =~= xs);
        assert(a + b =~= a);
    } else {
        let dl = ys.drop_last();
        let b0 = match collapse_props_nodes(conv, dl, false) {
            Ok((o, _)) => o,
            Err(_) => Seq::empty(),
        };
        lemma_cnodes_append(conv, xs, dl, a, b0);
        assert((xs + ys).drop_last() =~= xs + dl);
        assert((xs + ys).last() == ys.last());
        assert(b =~= b0.push(b.last()));
        assert(a + b =~= (a + b0).push(b.last()));
    }
}

proof fn lemma_collapse_prop_nodes(conv: Convention, ps: Seq<Entry>)
    ensures
        collapse_props_nodes(conv, prop_nodes(ps), false) matches Ok((o, _)) && o == prop_nodes(ps),
    decreases ps.len(),
{
    if ps.len() > 0 {
        let dl = ps.drop_last();
        lemma_collapse_prop_nodes(conv, dl);
        match ps.last() {
            Entry::Prop { key, ty, value } => {
                let n = Node {
                    ty: None,
                    name: key,
                    entries: seq![Entry::Arg { ty, value }],
                    children: None,
                };
                assert(prop_nodes(ps).drop_last() =~= prop_nodes(dl));
                assert(collapse_own(n) == Ok::<(Node, bool), Seq<char>>((n, false)));
                assert(collapse_props_node(conv, n, false) == Ok::<(Node, bool), Seq<char>>((n, false)));
            },
            Entry::Arg { .. } => {},
        }
    }
}

/// The expanded form of a node collapses back to the node, expanding under
/// `ce` and collapsing under `cc`, two conventions with the same markers.
proof fn lemma_node_round(ce: Convention, cc: Convention, n: Node)
    requires
        canonical_node(ce, n),
        ce.markers@ == cc.markers@,
    ensures
        collapse_props_nodes(cc, walk_node(OpV::ExpandProperties, ce, n, false).0, false) matches Ok(
            (o, _),
        ) && o == seq![n],
    decreases n,
{
    lemma_split_entries(n.entries);
    let pn = prop_nodes(n.entries);
    let c = old_children(n);
    let m = match n.children {
        Some(ch) => {
            let inner = walk_nodes(OpV::ExpandProperties, ce, ch, is_marker(ce, n.name));
            lemma_nodes_round(ce, cc, ch);
            lemma_expand_len(ce, ch, false);
            Node { children: Some(inner.0), ..n }
        },
        None => n,
    };
    let cx = old_children(m);
    assert(collapse_props_nodes(cc, cx, false) matches Ok((o, _)) && o == c);
    let k = cx + pn;
    let x = with_children(Node { entries: arg_entries(n.entries), ..m }, k);
    assert(walk_node(OpV::ExpandProperties, ce, n, false).0 == seq![x]);
    lemma_collapse_prop_nodes(cc, n.entries);
    lemma_cnodes_append(cc, cx, pn, c, pn);
    lemma_collapse_props(arg_entries(n.entries), c, n.entries);
    assert forall|i: int| 0 <= i < c.len() implies plain_child(#[trigger] c[i]) by {}
    if k.len() == 0 {
        assert(prop_entries(n.entries).len() == 0);
        assert(arg_entries(n.entries) =~= n.entries);
        assert(x == n);
        assert(collapse_own(x) == Ok::<(Node, bool), Seq<char>>((x, false)));
        assert(collapse_props_node(cc, x, false) == Ok::<(Node, bool), Seq<char>>((x, false)));
    } else {
        assert(x.children == Some(k));
        assert(!is_marker(cc, x.name));
        assert(cx.len() == c.len());
        let n1 = with_children(x, c + pn);
        assert(n1 == Node { children: Some(c + pn), ..x });
        assert(with_children(Node { entries: n.entries, ..n1 }, c) == n);
        assert(collapse_own(n1) matches Ok((o, _)) && o == n);
        assert(collapse_props_node(cc, x, false) matches Ok((o, _)) && o == n);
    }
    assert(collapse_props_node(cc, x, false) matches Ok((o, _)) && o == n);
    assert(seq![x].drop_last() =~= Seq::<Node>::empty());
    assert(seq![x].last() == x);
    assert(collapse_props_nodes(cc, Seq::<Node>::empty(), false) == Ok::<(Seq<Node>, bool), Seq<char>>(
        (Seq::<Node>::empty(), false),
    ));
    assert(Seq::<Node>::empty().push(n) =~= seq![n]);
}

/// The expanded forms of nodes collapse back to the nodes.
proof fn lemma_nodes_round(ce: Convention, cc: Convention, ns: Seq<Node>)
    requires
        canonical_nodes(ce, ns),
        ce.markers@ == cc.markers@,
    ensures
        collapse_props_nodes(cc, walk_nodes(OpV::ExpandProperties, ce, ns, false).0, false) matches Ok(
            (o, _),
        ) && o == ns,
    decreases ns,
{
    if ns.len() > 0 {
        let dl = ns.drop_last();
        lemma_nodes_round(ce, cc, dl);
        lemma_node_round(ce, cc, ns.last());
        lemma_cnodes_append(
            cc,
            walk_nodes(OpV::ExpandProperties, ce, dl, false).0,
            walk_node(OpV::ExpandProperties, ce, ns.last(), false).0,
            dl,
            seq![ns.last()],
        );
        assert(dl + seq![ns.last()] =~= ns);
    }
}

/// Rendering properties as children and then as properties again gives the
/// nodes back: `ce` expands properties into child nodes and `cc` collapses
/// them, both with the same markers and every other axis off, on nodes in
/// the collapsed form that `canonical_nodes` describes (properties after
/// arguments, and no child that would be taken for a property or that has
/// several entries).
pub proof fn law_render_property_round_trip(ns: Seq<Node>, ce: Convention, cc: Convention)
    requires
        ce.property_child_form is Expand,
        cc.property_child_form is Collapse,
        ce.markers@ == cc.markers@,
        ce.kind_keyword_form is Off,
        ce.type_annotation_form is Off,
        ce.namespace_form is Off,
        ce.procedure_form is Off,
        cc.kind_keyword_form is Off,
        cc.type_annotation_form is Off,
        cc.namespace_form is Off,
        cc.procedure_form is Off,
        canonical_nodes(ce, ns),
    ensures
        rendered(rendered(ns, ce), cc) == ns,
{
    lemma_nodes_round(ce, cc, ns);
}

} // verus!
