//! Kind keywords as marker nodes and back: with a prefix marker, a document
//! is given back when the identifiers of its nodes are expanded into marker
//! nodes and those are collapsed into identifiers again.
use vstd::prelude::*;
use crate::kdl::value::{Entry, Node, Val};
use super::convention::{AxisForm, Convention, Marker};
use super::nest_law::{lemma_walk_append, lemma_walk_single};
use super::render::rendered;
use super::transform::{
    apply_op, collapse_kind_spec, expand_kind_spec, is_marker, marker_view, take_first_string,
    walk_node, walk_nodes, with_children, MarkerV, OpV,
};

verus! {

/// The node's identifier: its first entry, when that is a string argument
/// without type annotation.
pub open spec fn leading_id(n: Node) -> bool {
    n.entries.len() > 0 && n.entries[0] matches Entry::Arg { ty: None, value: Val::Str(_) }
}

/// A node, and every node below it, that expanding and collapsing kind
/// keywords with the prefix marker `c` give back: its name is no marker name
/// and does not start with `c`, it has no entries or an identifier first, a
/// block of children it has is not empty, and when it has an identifier its
/// children have no entries.
pub open spec fn kind_node_ok(conv: Convention, c: char, n: Node) -> bool
    decreases n,
{
    &&& !is_marker(conv, n.name)
    &&& !(n.name.len() > 0 && n.name[0] == c)
    &&& (n.entries.len() == 0 || leading_id(n))
    &&& match n.children {
        Some(cs) => cs.len() > 0 && kind_nodes_ok(conv, c, cs) && (leading_id(n) ==> forall|i: int|
            0 <= i < cs.len() ==> (#[trigger] cs[i]).entries.len() == 0),
        None => true,
    }
}

/// Each of the nodes is as `kind_node_ok` asks.
pub open spec fn kind_nodes_ok(conv: Convention, c: char, ns: Seq<Node>) -> bool
    decreases ns,
{
    if ns.len() == 0 {
        true
    } else {
        kind_nodes_ok(conv, c, ns.drop_last()) && kind_node_ok(conv, c, ns.last())
    }
}

proof fn lemma_expand_len(conv: Convention, m: MarkerV, ns: Seq<Node>, pm: bool)
    ensures
        walk_nodes(OpV::ExpandKind(m), conv, ns, pm).0.len() == ns.len(),
    decreases ns.len(),
{
    if ns.len() > 0 {
        lemma_expand_len(conv, m, ns.drop_last(), pm);
        let n = ns.last();
        match n.children {
            Some(c) => {
                let inner = walk_nodes(OpV::ExpandKind(m), conv, c, is_marker(conv, n.name));
                assert(apply_op(OpV::ExpandKind(m), conv, with_children(n, inner.0), pm).0.len() == 1);
                assert(walk_node(OpV::ExpandKind(m), conv, n, pm).0.len() == 1);
            },
            None => {
                assert(apply_op(OpV::ExpandKind(m), conv, n, pm).0.len() == 1);
                assert(walk_node(OpV::ExpandKind(m), conv, n, pm).0.len() == 1);
            },
        }
    }
}

/// The node with its children expanded: what the expansion rewrites.
pub open spec fn expanded_inner(ce: Convention, m: MarkerV, n: Node) -> Node {
    match n.children {
        Some(c) => with_children(n, walk_nodes(OpV::ExpandKind(m), ce, c, is_marker(ce, n.name)).0),
        None => n,
    }
}

/// The expanded children of a node collapse back to its children, and a
/// node without entries is given back whether or not it is skipped.
proof fn lemma_inner_round(ce: Convention, cc: Convention, c: char, n: Node, pm: bool)
    requires
        kind_node_ok(ce, c, n),
        ce.markers@ == cc.markers@,
        n.entries.len() == 0,
    ensures
        walk_node(OpV::CollapseKind(MarkerV::Prefix(c)), cc, expanded_inner(ce, MarkerV::Prefix(c), n), pm).0
            == seq![n],
    decreases n, 0nat,
{
    let m = MarkerV::Prefix(c);
    let x = expanded_inner(ce, m, n);
    match n.children {
        Some(cs) => {
            lemma_nodes_round(ce, cc, c, cs, false);
            lemma_expand_len(ce, m, cs, false);
            let inner = walk_nodes(OpV::ExpandKind(m), ce, cs, is_marker(ce, n.name));
            assert(x.children == Some(inner.0));
            assert(!is_marker(cc, x.name));
            assert(with_children(x, cs) == n);
            assert(collapse_kind_spec(n, pm, m).0 == seq![n]) by {
                if cs.len() == 1 {
                    assert(!(cs[0].name.len() > 0 && cs[0].name[0] == c)) by {
                        lemma_node_ok_at(ce, c, cs, 0);
                    }
                }
            }
        },
        None => {
            assert(x == n);
            assert(collapse_kind_spec(n, pm, m).0 == seq![n]);
        },
    }
}

proof fn lemma_node_ok_at(conv: Convention, c: char, ns: Seq<Node>, i: int)
    requires
        kind_nodes_ok(conv, c, ns),
        0 <= i < ns.len(),
    ensures
        kind_node_ok(conv, c, ns[i]),
    decreases ns.len(),
{
    if i < ns.len() - 1 {
        lemma_node_ok_at(conv, c, ns.drop_last(), i);
        assert(ns.drop_last()[i] == ns[i]);
    }
}

/// The expanded form of a node collapses back to the node; a node without
/// entries also when it is skipped.
proof fn lemma_node_round(ce: Convention, cc: Convention, c: char, n: Node, pm: bool)
    requires
        kind_node_ok(ce, c, n),
        ce.markers@ == cc.markers@,
        pm ==> n.entries.len() == 0,
    ensures
        walk_node(OpV::ExpandKind(MarkerV::Prefix(c)), ce, n, false).0.len() == 1,
        walk_node(
            OpV::CollapseKind(MarkerV::Prefix(c)),
            cc,
            walk_node(OpV::ExpandKind(MarkerV::Prefix(c)), ce, n, false).0[0],
            pm,
        ).0 == seq![n],
    decreases n, 1nat,
{
    let m = MarkerV::Prefix(c);
    let inner = expanded_inner(ce, m, n);
    assert(walk_node(OpV::ExpandKind(m), ce, n, false).0 == expand_kind_spec(inner, false, m).0);
    if n.entries.len() == 0 {
        assert(take_first_string(inner.entries) is None);
        assert(inner.entries == n.entries);
        assert(inner.entries =~= Seq::<Entry>::empty());
        assert(Node { entries: Seq::empty(), ..inner } == inner);
        lemma_inner_round(ce, cc, c, n, pm);
    } else {
        let id = match n.entries[0] {
            Entry::Arg { value: Val::Str(s), .. } => s,
            _ => Seq::empty(),
        };
        let rest = n.entries.drop_first();
        assert(take_first_string(inner.entries) == Some((id, rest)));
        let k = Node { ty: None, name: seq![c] + id, entries: Seq::empty(), children: inner.children };
        let x = Node { entries: rest, children: Some(seq![k]), ..inner };
        assert(expand_kind_spec(inner, false, m).0 == seq![x]);
        let kb = Node { ty: None, name: seq![c] + id, entries: Seq::empty(), children: n.children };
        // the marker node collapses to itself with its children given back
        let pk = is_marker(cc, k.name);
        match n.children {
            Some(cs) => {
                lemma_nodes_round(ce, cc, c, cs, pk);
                lemma_expand_len(ce, m, cs, false);
                let ich = walk_nodes(OpV::ExpandKind(m), ce, cs, is_marker(ce, n.name));
                assert(k.children == Some(ich.0));
                assert(with_children(k, cs) == kb);
                assert(collapse_kind_spec(kb, false, m).0 == seq![kb]) by {
                    if cs.len() == 1 {
                        lemma_node_ok_at(ce, c, cs, 0);
                    }
                }
            },
            None => {
                assert(k == kb);
                assert(collapse_kind_spec(kb, false, m).0 == seq![kb]);
            },
        }
        assert(walk_node(OpV::CollapseKind(m), cc, k, false).0 == seq![kb]);
        lemma_walk_single(OpV::CollapseKind(m), cc, k, false);
        assert(!is_marker(cc, x.name));
        let x1 = with_children(x, seq![kb]);
        assert(x1 == Node { children: Some(seq![kb]), ..x });
        assert((seq![c] + id).drop_first() =~= id);
        assert(seq![Entry::Arg { ty: None, value: Val::Str(id) }] + rest =~= n.entries);
        assert(collapse_kind_spec(x1, false, m).0 == seq![n]);
    }
}

/// The expanded forms of nodes collapse back to the nodes.
proof fn lemma_nodes_round(ce: Convention, cc: Convention, c: char, ns: Seq<Node>, pm: bool)
    requires
        kind_nodes_ok(ce, c, ns),
        ce.markers@ == cc.markers@,
        pm ==> forall|i: int| 0 <= i < ns.len() ==> (#[trigger] ns[i]).entries.len() == 0,
    ensures
        walk_nodes(
            OpV::CollapseKind(MarkerV::Prefix(c)),
            cc,
            walk_nodes(OpV::ExpandKind(MarkerV::Prefix(c)), ce, ns, false).0,
            pm,
        ).0 == ns,
    decreases ns, 2nat,
{
    let m = MarkerV::Prefix(c);
    if ns.len() > 0 {
        let dl = ns.drop_last();
        assert(pm ==> forall|i: int| 0 <= i < dl.len() ==> (#[trigger] dl[i]).entries.len() == 0) by {
            if pm {
                assert forall|i: int| 0 <= i < dl.len() implies (#[trigger] dl[i]).entries.len() == 0 by {
                    assert(dl[i] == ns[i]);
                }
            }
        }
        assert(pm ==> ns[ns.len() - 1].entries.len() == 0);
        lemma_nodes_round(ce, cc, c, dl, pm);
        lemma_node_round(ce, cc, c, ns.last(), pm);
        let e = walk_node(OpV::ExpandKind(m), ce, ns.last(), false).0;
        assert(e =~= seq![e[0]]);
        lemma_walk_single(OpV::CollapseKind(m), cc, e[0], pm);
        lemma_walk_append(OpV::CollapseKind(m), cc, walk_nodes(OpV::ExpandKind(m), ce, dl, false).0, e, pm);
        assert(dl + seq![ns.last()] =~= ns);
    }
}

/// Rendering kind keywords as marker nodes and then as identifiers again
/// gives the nodes back: `ce` expands them with the prefix marker `c` and
/// `cc` collapses marker nodes of it, both with the same markers and every
/// other axis off, on nodes as `kind_nodes_ok` asks.
pub proof fn law_render_kind_round_trip(ns: Seq<Node>, ce: Convention, cc: Convention, c: char)
    requires
        ce.kind_keyword_form == AxisForm::ExpandWithMarker(Marker::Prefix(c)),
        cc.kind_keyword_form == AxisForm::CollapseWithMarker(Marker::Prefix(c)),
        ce.markers@ == cc.markers@,
        ce.type_annotation_form is Off,
        ce.namespace_form is Off,
        ce.procedure_form is Off,
        ce.property_child_form is Off,
        cc.type_annotation_form is Off,
        cc.namespace_form is Off,
        cc.procedure_form is Off,
        cc.property_child_form is Off,
        kind_nodes_ok(ce, c, ns),
    ensures
        rendered(rendered(ns, ce), cc) == ns,
{
    assert(marker_view(Marker::Prefix(c)) == MarkerV::Prefix(c));
    lemma_nodes_round(ce, cc, c, ns, false);
}

} // verus!
