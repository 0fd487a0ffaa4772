//! Type annotations as marker nodes and back: a document is given back when
//! its type annotations are expanded into marker nodes around the annotated
//! nodes and those are collapsed into annotations again.
use vstd::prelude::*;
use crate::kdl::value::Node;
use super::convention::{AxisForm, Convention, Marker};
use super::nest_law::{lemma_walk_append, lemma_walk_single};
use super::render::rendered;
use super::transform::{
    apply_op, collapse_type_spec, expand_type_spec, is_marker, marker_matches_v, marker_view,
    marker_wrapper, walk_node, walk_nodes, with_children, MarkerV, OpV,
};

verus! {

/// A node, and every node below it, that expanding and collapsing type
/// annotations with marker `m` give back: its name is no marker name and is
/// not one that `m` designates, and a block of children it has is not empty.
pub open spec fn type_node_ok(conv: Convention, m: MarkerV, n: Node) -> bool
    decreases n,
{
    &&& !is_marker(conv, n.name)
    &&& !marker_matches_v(m, n.name)
    &&& match n.children {
        Some(c) => c.len() > 0 && type_nodes_ok(conv, m, c),
        None => true,
    }
}

/// Each of the nodes is as `type_node_ok` asks.
pub open spec fn type_nodes_ok(conv: Convention, m: MarkerV, ns: Seq<Node>) -> bool
    decreases ns,
{
    if ns.len() == 0 {
        true
    } else {
        type_nodes_ok(conv, m, ns.drop_last()) && type_node_ok(conv, m, ns.last())
    }
}

proof fn lemma_expand_len(conv: Convention, m: MarkerV, ns: Seq<Node>, pm: bool)
    ensures
        walk_nodes(OpV::ExpandType(m), conv, ns, pm).0.len() == ns.len(),
    decreases ns.len(),
{
    if ns.len() > 0 {
        lemma_expand_len(conv, m, ns.drop_last(), pm);
        let n = ns.last();
        match n.children {
            Some(c) => {
                let inner = walk_nodes(OpV::ExpandType(m), conv, c, is_marker(conv, n.name));
                assert(apply_op(OpV::ExpandType(m), conv, with_children(n, inner.0), pm).0.len() == 1);
                assert(walk_node(OpV::ExpandType(m), conv, n, pm).0.len() == 1);
            },
            None => {
                assert(apply_op(OpV::ExpandType(m), conv, n, pm).0.len() == 1);
                assert(walk_node(OpV::ExpandType(m), conv, n, pm).0.len() == 1);
            },
        }
    }
}

/// The node with its children expanded: what the expansion annotates.
pub open spec fn expanded_inner(ce: Convention, m: MarkerV, n: Node) -> Node {
    match n.children {
        Some(c) => with_children(n, walk_nodes(OpV::ExpandType(m), ce, c, is_marker(ce, n.name)).0),
        None => n,
    }
}

/// Without its annotation, the node with expanded children collapses back
/// to the node without its annotation, whether or not it is skipped.
proof fn lemma_inner_round(ce: Convention, cc: Convention, m: MarkerV, n: Node, pm: bool)
    requires
        type_node_ok(ce, m, n),
        ce.markers@ == cc.markers@,
    ensures
        walk_node(OpV::CollapseType(m), cc, Node { ty: None, ..expanded_inner(ce, m, n) }, pm).0
            == seq![Node { ty: None, ..n }],
    decreases n, 0nat,
{
    let x = Node { ty: None, ..expanded_inner(ce, m, n) };
    let target = Node { ty: None, ..n };
    match n.children {
        Some(c) => {
            lemma_nodes_round(ce, cc, m, c);
            lemma_expand_len(ce, m, c, false);
            let inner = walk_nodes(OpV::ExpandType(m), ce, c, is_marker(ce, n.name));
            assert(x.children == Some(inner.0));
            assert(!is_marker(cc, x.name));
            assert(with_children(x, c) == target);
            assert(collapse_type_spec(target, pm, m).0 == seq![target]);
        },
        None => {
            assert(x == target);
            assert(collapse_type_spec(target, pm, m).0 == seq![target]);
        },
    }
}

/// The expanded form of a node collapses back to the node.
proof fn lemma_node_round(ce: Convention, cc: Convention, m: MarkerV, n: Node)
    requires
        type_node_ok(ce, m, n),
        ce.markers@ == cc.markers@,
    ensures
        walk_node(OpV::CollapseType(m), cc, walk_node(OpV::ExpandType(m), ce, n, false).0[0], false).0
            == seq![n],
        walk_node(OpV::ExpandType(m), ce, n, false).0.len() == 1,
    decreases n, 1nat,
{
    let inner = expanded_inner(ce, m, n);
    assert(walk_node(OpV::ExpandType(m), ce, n, false).0 == expand_type_spec(inner, false, m).0);
    lemma_inner_round(ce, cc, m, n, false);
    match n.ty {
        Some(t) => {
            let bare = Node { ty: None, ..inner };
            let w = marker_wrapper(m, t, bare);
            assert(expand_type_spec(inner, false, m).0 == seq![w]);
            let pw = is_marker(cc, w.name);
            lemma_inner_round(ce, cc, m, n, pw);
            lemma_walk_single(OpV::CollapseType(m), cc, bare, pw);
            let back = Node { ty: None, ..n };
            assert(w.children == Some(seq![bare]));
            let w1 = with_children(w, seq![back]);
            assert(w1.children == Some(seq![back]));
            assert(marker_matches_v(m, w1.name));
            match m {
                MarkerV::Kind(k) => {
                    assert(w1.entries[0] == crate::kdl::value::Entry::Arg {
                        ty: None,
                        value: crate::kdl::value::Val::Str(t),
                    });
                },
                MarkerV::Prefix(ch) => {
                    assert((seq![ch] + t).drop_first() =~= t);
                },
            }
            assert(super::transform::marker_payload(m, w1) == t);
            assert(collapse_type_spec(w1, false, m).0 == seq![n]);
        },
        None => {
            assert(Node { ty: None, ..inner } == inner);
            assert(Node { ty: None, ..n } == n);
        },
    }
}

/// The expanded forms of nodes collapse back to the nodes.
proof fn lemma_nodes_round(ce: Convention, cc: Convention, m: MarkerV, ns: Seq<Node>)
    requires
        type_nodes_ok(ce, m, ns),
        ce.markers@ == cc.markers@,
    ensures
        walk_nodes(OpV::CollapseType(m), cc, walk_nodes(OpV::ExpandType(m), ce, ns, false).0, false).0
            == ns,
    decreases ns, 2nat,
{
    if ns.len() > 0 {
        let dl = ns.drop_last();
        lemma_nodes_round(ce, cc, m, dl);
        lemma_node_round(ce, cc, m, ns.last());
        let e = walk_node(OpV::ExpandType(m), ce, ns.last(), false).0;
        assert(e =~= seq![e[0]]);
        lemma_walk_single(OpV::CollapseType(m), cc, e[0], false);
        lemma_walk_append(
            OpV::CollapseType(m),
            cc,
            walk_nodes(OpV::ExpandType(m), ce, dl, false).0,
            e,
            false,
        );
        assert(dl + seq![ns.last()] =~= ns);
    }
}

/// Rendering type annotations as marker nodes and then as annotations again
/// gives the nodes back: `ce` expands them with marker `mk` and `cc`
/// collapses marker nodes of `mk`, both with the same markers and every
/// other axis off, on nodes whose names are no marker names, are not
/// designated by `mk`, and whose blocks of children are not empty.
pub proof fn law_render_type_round_trip(ns: Seq<Node>, ce: Convention, cc: Convention, mk: Marker)
    requires
        ce.type_annotation_form == AxisForm::ExpandWithMarker(mk),
        cc.type_annotation_form == AxisForm::CollapseWithMarker(mk),
        ce.markers@ == cc.markers@,
        ce.kind_keyword_form is Off,
        ce.namespace_form is Off,
        ce.procedure_form is Off,
        ce.property_child_form is Off,
        cc.kind_keyword_form is Off,
        cc.namespace_form is Off,
        cc.procedure_form is Off,
        cc.property_child_form is Off,
        type_nodes_ok(ce, marker_view(mk), ns),
    ensures
        rendered(rendered(ns, ce), cc) == ns,
{
    lemma_nodes_round(ce, cc, marker_view(mk), ns);
}

} // verus!
