//! Flattening undoes nesting: a document whose dotted names were nested into
//! chains of namespace nodes is given back by merging those chains again.
use vstd::prelude::*;
use crate::kdl::value::Node;
use super::convention::Convention;
use super::document::Document;
use super::render::rendered;
use super::nsid::{join_with, lemma_join_split, lemma_split_on_nonempty, split_on};
use super::transform::{
    apply_op, chain, flat_with, flattens, is_marker, rewritten, walk_node, walk_nodes, with_children,
    OpV,
};

verus! {

/// No piece of the dotted name `name` is a marker name.
pub open spec fn segments_unmarked(conv: Convention, name: Seq<char>) -> bool {
    forall|i: int|
        0 <= i < split_on(name, '.').len() ==> !is_marker(conv, #[trigger] split_on(name, '.')[i])
}

/// A node, and every node below it, that nesting turns into a chain which
/// flattening merges back: its name and the pieces of its name are no
/// marker names, it is no namespace node (no type, no entries, exactly one
/// child), and a block of children it has is not empty.
pub open spec fn nest_node_ok(conv: Convention, n: Node) -> bool
    decreases n,
{
    &&& !is_marker(conv, n.name)
    &&& segments_unmarked(conv, n.name)
    &&& !flattens(n)
    &&& match n.children {
        Some(c) => c.len() > 0 && nest_nodes_ok(conv, c),
        None => true,
    }
}

/// Each of the nodes is as `nest_node_ok` asks.
pub open spec fn nest_nodes_ok(conv: Convention, ns: Seq<Node>) -> bool
    decreases ns,
{
    if ns.len() == 0 {
        true
    } else {
        nest_nodes_ok(conv, ns.drop_last()) && nest_node_ok(conv, ns.last())
    }
}

proof fn lemma_join_merge(q: Seq<Seq<char>>, a: Seq<char>, b: Seq<char>)
    ensures
        join_with(q.push(a + seq!['.'] + b), '.') == join_with(q.push(a).push(b), '.'),
{
    let qa = q.push(a);
    assert(qa.push(b).drop_last() =~= qa);
    if q.len() == 0 {
        assert(q.push(a + seq!['.'] + b) =~= seq![a + seq!['.'] + b]);
        assert(qa =~= seq![a]);
        assert(join_with(qa, '.') == a);
        assert(join_with(qa.push(b), '.') == join_with(qa, '.').push('.') + b);
        assert(join_with(qa.push(b), '.') =~= a + seq!['.'] + b);
    } else {
        assert(q.push(a + seq!['.'] + b).drop_last() =~= q);
        assert(qa.drop_last() =~= q);
        let j = join_with(q, '.');
        assert(join_with(q.push(a + seq!['.'] + b), '.') == j.push('.') + (a + seq!['.'] + b));
        assert(join_with(qa, '.') == j.push('.') + a);
        assert(join_with(qa.push(b), '.') == join_with(qa, '.').push('.') + b);
        assert(join_with(q.push(a + seq!['.'] + b), '.') =~= join_with(q.push(a).push(b), '.'));
    }
}

pub proof fn lemma_walk_single(op: OpV, conv: Convention, x: Node, pm: bool)
    ensures
        walk_nodes(op, conv, seq![x], pm).0 == walk_node(op, conv, x, pm).0,
{
    assert(seq![x].drop_last() =~= Seq::<Node>::empty());
    assert(seq![x].last() == x);
    assert(walk_nodes(op, conv, Seq::<Node>::empty(), pm).0 == Seq::<Node>::empty());
    assert(Seq::<Node>::empty() + walk_node(op, conv, x, pm).0 =~= walk_node(op, conv, x, pm).0);
}

pub proof fn lemma_walk_append(op: OpV, conv: Convention, xs: Seq<Node>, ys: Seq<Node>, pm: bool)
    ensures
        walk_nodes(op, conv, xs + ys, pm).0 == walk_nodes(op, conv, xs, pm).0 + walk_nodes(
            op,
            conv,
            ys,
            pm,
        ).0,
    decreases ys.len(),
{
    if ys.len() == 0 {
        assert(xs + ys =~= xs);
        assert(walk_nodes(op, conv, xs, pm).0 + Seq::<Node>::empty() =~= walk_nodes(
            op,
            conv,
            xs,
            pm,
        ).0);
    } else {
        assert((xs + ys).drop_last() =~= xs + ys.drop_last());
        assert((xs + ys).last() == ys.last());
        lemma_walk_append(op, conv, xs, ys.drop_last(), pm);
        assert(walk_nodes(op, conv, xs + ys, pm).0 =~= walk_nodes(op, conv, xs, pm).0
            + walk_nodes(op, conv, ys, pm).0);
    }
}

proof fn lemma_nest_len(conv: Convention, ns: Seq<Node>, pm: bool)
    ensures
        walk_nodes(OpV::Nest, conv, ns, pm).0.len() == ns.len(),
    decreases ns.len(),
{
    if ns.len() > 0 {
        lemma_nest_len(conv, ns.drop_last(), pm);
        lemma_nest_node_len(conv, ns.last(), pm);
    }
}

proof fn lemma_nest_node_len(conv: Convention, n: Node, pm: bool)
    ensures
        walk_node(OpV::Nest, conv, n, pm).0.len() == 1,
{
    match n.children {
        Some(c) => {
            let inner = walk_nodes(OpV::Nest, conv, c, is_marker(conv, n.name));
            assert(apply_op(OpV::Nest, conv, with_children(n, inner.0), pm).0.len() == 1);
        },
        None => {
            assert(apply_op(OpV::Nest, conv, n, pm).0.len() == 1);
        },
    }
}

/// A node whose children flatten back to those of `t`, and which otherwise
/// is `t`, flattens to `t` when `t` is no namespace node.
proof fn lemma_flatten_plain(conv: Convention, x: Node, t: Node)
    requires
        !is_marker(conv, t.name),
        !flattens(t),
        x.name == t.name,
        x.ty == t.ty,
        x.entries == t.entries,
        match t.children {
            Some(c) => c.len() > 0 && (x.children matches Some(cx) && walk_nodes(
                OpV::Flatten,
                conv,
                cx,
                false,
            ).0 == c),
            None => x.children is None,
        },
    ensures
        walk_node(OpV::Flatten, conv, x, false).0 == seq![t],
{
    match t.children {
        Some(c) => {
            let cx = x.children->0;
            let inner = walk_nodes(OpV::Flatten, conv, cx, is_marker(conv, x.name));
            assert(inner.0 == c);
            let m = Node { children: Some(c), ..x };
            assert(m == t);
            assert(Node { name: t.name, ..t } == t);
        },
        None => {
            assert(Node { name: t.name, ..t } == t);
        },
    }
}

/// A chain of namespace nodes above `x` flattens to what `x` flattens to,
/// named by the names of the chain and of that node joined with `.`.
proof fn lemma_flatten_chain(conv: Convention, p: Seq<Seq<char>>, x: Node, y: Node)
    requires
        walk_node(OpV::Flatten, conv, x, false).0 == seq![y],
        !flattens(y),
        forall|i: int| 0 <= i < p.len() ==> !is_marker(conv, #[trigger] p[i]),
    ensures
        walk_node(OpV::Flatten, conv, chain(p, x), false).0 == seq![
            Node { name: join_with(p.push(y.name), '.'), ..y },
        ],
    decreases p.len(),
{
    if p.len() == 0 {
        assert(p.push(y.name) =~= seq![y.name]);
        assert(Node { name: y.name, ..y } == y);
    } else {
        let w = Node {
            ty: None,
            name: p.last(),
            entries: Seq::empty(),
            children: Some(seq![x]),
        };
        assert(!is_marker(conv, p[p.len() - 1]));
        lemma_walk_single(OpV::Flatten, conv, x, false);
        let w2 = Node { children: Some(seq![y]), ..w };
        let y2 = Node { name: p.last() + seq!['.'] + y.name, ..y };
        assert(with_children(w, seq![y]) == w2);
        assert(flattens(w2));
        assert(w2.children->0[0] == y);
        assert(flat_with(y2.name, y) == y2);
        assert(flat_with(w2.name, w2) == flat_with(p.last() + seq!['.'] + y.name, y));
        assert(apply_op(OpV::Flatten, conv, w2, false).0 == seq![y2]);
        assert(walk_node(OpV::Flatten, conv, w, false).0 == seq![y2]);
        let q = p.drop_last();
        assert forall|i: int| 0 <= i < q.len() implies !is_marker(conv, #[trigger] q[i]) by {
            assert(q[i] == p[i]);
        }
        lemma_flatten_chain(conv, q, w, y2);
        assert(chain(p, x) == chain(q, w));
        lemma_join_merge(q, p.last(), y.name);
        assert(q.push(p.last()) =~= p);
        assert(Node { name: join_with(q.push(y2.name), '.'), ..y2 } == Node {
            name: join_with(p.push(y.name), '.'),
            ..y
        });
    }
}

/// The nested form of a node flattens back to the node, nesting under `cn`
/// and flattening under `cf`, two conventions with the same markers.
proof fn lemma_node_round(cn: Convention, cf: Convention, n: Node)
    requires
        nest_node_ok(cn, n),
        cn.markers@ == cf.markers@,
    ensures
        walk_nodes(OpV::Flatten, cf, walk_node(OpV::Nest, cn, n, false).0, false).0 == seq![n],
    decreases n,
{
    let segs = split_on(n.name, '.');
    lemma_split_on_nonempty(n.name, '.');
    let m = match n.children {
        Some(c) => {
            let inner = walk_nodes(OpV::Nest, cn, c, is_marker(cn, n.name));
            lemma_nodes_round(cn, cf, c);
            lemma_nest_len(cn, c, false);
            Node { children: Some(inner.0), ..n }
        },
        None => n,
    };
    assert(walk_node(OpV::Nest, cn, n, false).0 == super::transform::nest_spec(m, false).0);
    if super::transform::nest_spec(m, false).1 {
        let leaf = Node { name: segs.last(), ..m };
        let y = Node { name: segs.last(), ..n };
        assert(!is_marker(cn, segs[segs.len() - 1]));
        lemma_flatten_plain(cf, leaf, y);
        let p = segs.drop_last();
        assert forall|i: int| 0 <= i < p.len() implies !is_marker(cf, #[trigger] p[i]) by {
            assert(p[i] == segs[i]);
            assert(!is_marker(cn, segs[i]));
        }
        lemma_flatten_chain(cf, p, leaf, y);
        assert(p.push(segs.last()) =~= segs);
        lemma_join_split(n.name, '.');
        assert(Node { name: join_with(p.push(y.name), '.'), ..y } == n);
        lemma_walk_single(OpV::Flatten, cf, chain(p, leaf), false);
    } else {
        lemma_flatten_plain(cf, m, n);
        lemma_walk_single(OpV::Flatten, cf, m, false);
    }
}

/// The nested forms of nodes flatten back to the nodes.
proof fn lemma_nodes_round(cn: Convention, cf: Convention, ns: Seq<Node>)
    requires
        nest_nodes_ok(cn, ns),
        cn.markers@ == cf.markers@,
    ensures
        walk_nodes(OpV::Flatten, cf, walk_nodes(OpV::Nest, cn, ns, false).0, false).0 == ns,
    decreases ns,
{
    if ns.len() > 0 {
        lemma_nodes_round(cn, cf, ns.drop_last());
        lemma_node_round(cn, cf, ns.last());
        lemma_walk_append(
            OpV::Flatten,
            cf,
            walk_nodes(OpV::Nest, cn, ns.drop_last(), false).0,
            walk_node(OpV::Nest, cn, ns.last(), false).0,
            false,
        );
        assert(ns.drop_last() + seq![ns.last()] =~= ns);
    }
}

/// Flattening undoes nesting: when `nested` is what `Document::nest` makes
/// of `d` under `conv`, `Document::flatten` gives the nodes of `d` back,
/// provided no name of `d`, nor any piece of a dotted name, is a marker
/// name, no node of `d` is already a namespace node (no type, no entries,
/// exactly one child), and no block of children is empty.
pub proof fn law_flatten_undoes_nest(conv: Convention, d: Document, nested: Document)
    requires
        nest_nodes_ok(conv, crate::kdl::value::nodes_view(d.nodes_spec())),
        crate::kdl::value::nodes_view(nested.nodes_spec()) == rewritten(OpV::Nest, conv, d).0,
    ensures
        rewritten(OpV::Flatten, conv, nested).0 == crate::kdl::value::nodes_view(d.nodes_spec()),
{
    lemma_nodes_round(conv, conv, crate::kdl::value::nodes_view(d.nodes_spec()));
}

/// Rendering the namespace axis expanded and then collapsed gives the nodes
/// back: `ce` nests dotted names and `cc` flattens namespace chains, both
/// with the same markers and every other axis off, on nodes as
/// `law_flatten_undoes_nest` asks for.
pub proof fn law_render_namespace_round_trip(ns: Seq<Node>, ce: Convention, cc: Convention)
    requires
        ce.namespace_form is Expand,
        cc.namespace_form is Collapse,
        ce.markers@ == cc.markers@,
        ce.kind_keyword_form is Off,
        ce.type_annotation_form is Off,
        ce.procedure_form is Off,
        ce.property_child_form is Off,
        cc.kind_keyword_form is Off,
        cc.type_annotation_form is Off,
        cc.procedure_form is Off,
        cc.property_child_form is Off,
        nest_nodes_ok(ce, ns),
    ensures
        rendered(rendered(ns, ce), cc) == ns,
{
    lemma_nodes_round(ce, cc, ns);
}

} // verus!
