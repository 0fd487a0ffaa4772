//! Dot chains: a node of a kind followed by nodes of the same kind whose
//! names carry leading dots (`call`, `.call`, `..call`) against the same
//! nodes nested as children.
use vstd::prelude::*;
use crate::kdl::number_form::{decimal, push_decimal};
use crate::kdl::value::{
    copy_entries, copy_node, copy_opt_text, lemma_nodes_view, lemma_nodes_view_push, nodes_view,
    KdlDocument, KdlNode, Node,
};
use crate::text::{str_chars, str_eq, string_from_chars};
use super::convention::Convention;
use super::document::Document;
use super::structured::{leading_dot_count, leading_dots};
use super::transform::{is_marker, old_children, reports, with_children, TransformOutcome};

verus! {

/// `n` dots.
pub open spec fn dots(n: nat) -> Seq<char>
    decreases n,
{
    if n == 0 {
        Seq::empty()
    } else {
        dots((n - 1) as nat).push('.')
    }
}

/// `x` added as the last child of the node `d - 1` levels down the chain of
/// last children of `t` (`d` at least 1).
pub open spec fn spine_insert(t: Node, d: nat, x: Node) -> Node
    decreases d,
{
    let cs = old_children(t);
    if d <= 1 || cs.len() == 0 {
        Node { children: Some(cs.push(x)), ..t }
    } else {
        Node { children: Some(cs.update(cs.len() - 1, spine_insert(cs.last(), (d - 1) as nat, x))), ..t }
    }
}

/// How deep the chain of last children of `t` goes.
pub open spec fn spine_len(t: Node) -> nat
    decreases t,
{
    match t.children {
        Some(cs) => if cs.len() > 0 {
            1 + spine_len(cs.last())
        } else {
            0
        },
        None => 0,
    }
}

/// The reason given for a dot chain that skips a level.
pub open spec fn depth_jump(from: nat, to: nat) -> Seq<char> {
    "depth jump from "@ + decimal(from) + " to "@ + decimal(to)
}

/// The state of reading a list into chains: the nodes so far, how many
/// levels the current chain offers, whether a dotted node was met.
pub struct ChainState {
    pub out: Seq<Node>,
    pub open: nat,
    pub changed: bool,
}

/// One node read into the chains: a node of another kind ends the current
/// chain; a node of the kind with `d` dots becomes the last child at level
/// `d` of the current chain (level 0: a new chain), or is an error when the
/// chain has fewer levels.
pub open spec fn chain_step(st: ChainState, n: Node, kind: Seq<char>) -> Result<ChainState, Seq<char>> {
    let d = leading_dots(n.name);
    let k = n.name.skip(d as int);
    if k != kind {
        Ok(ChainState { out: st.out.push(n), open: 0, changed: st.changed })
    } else if d > st.open {
        Err(depth_jump(st.open, d))
    } else if d == 0 {
        Ok(ChainState { out: st.out.push(Node { name: k, ..n }), open: 1, changed: st.changed })
    } else {
        Ok(
            ChainState {
                out: st.out.update(
                    st.out.len() - 1,
                    spine_insert(st.out.last(), d, Node { name: k, ..n }),
                ),
                open: d + 1,
                changed: true,
            },
        )
    }
}

/// A list read into chains, node by node.
pub open spec fn chain_list(ns: Seq<Node>, kind: Seq<char>) -> Result<ChainState, Seq<char>>
    decreases ns.len(),
{
    if ns.len() == 0 {
        Ok(ChainState { out: Seq::empty(), open: 0, changed: false })
    } else {
        match chain_list(ns.drop_last(), kind) {
            Err(e) => Err(e),
            Ok(st) => chain_step(st, ns.last(), kind),
        }
    }
}

/// The children of the nodes expanded first (not below marker nodes), in
/// order, stopping at the first error: the nodes as they then stand, and
/// whether a dotted node was met or the error.
pub open spec fn expand_children(ns: Seq<Node>, kind: Seq<char>, conv: Convention) -> (
    Seq<Node>,
    Result<bool, Seq<char>>,
)
    decreases ns, 0nat,
{
    if ns.len() == 0 {
        (Seq::empty(), Ok(false))
    } else {
        let a = expand_children(ns.drop_last(), kind, conv);
        match a.1 {
            Err(e) => (a.0.push(ns.last()), Err(e)),
            Ok(ca) => {
                let n = ns.last();
                match n.children {
                    Some(c) => if is_marker(conv, n.name) {
                        (a.0.push(n), Ok(ca))
                    } else {
                        let b = expand_list(c, kind, conv);
                        (
                            a.0.push(Node { children: Some(b.0), ..n }),
                            match b.1 {
                                Err(e) => Err(e),
                                Ok(cb) => Ok(ca || cb),
                            },
                        )
                    },
                    None => (a.0.push(n), Ok(ca)),
                }
            },
        }
    }
}

/// A list with its dot chains of `kind` nested, children first: the list
/// as it then stands and whether a dotted node was met, or the error. A
/// level skipped in this list leaves it empty; an error below leaves it as
/// the children's expansion left it.
pub open spec fn expand_list(ns: Seq<Node>, kind: Seq<char>, conv: Convention) -> (
    Seq<Node>,
    Result<bool, Seq<char>>,
)
    decreases ns, 1nat,
{
    let a = expand_children(ns, kind, conv);
    match a.1 {
        Err(e) => a,
        Ok(ca) => match chain_list(a.0, kind) {
            Err(e) => (Seq::empty(), Err(e)),
            Ok(st) => (st.out, Ok(ca || st.changed)),
        },
    }
}

/// A chain collapsed into a list: the node renamed with `depth` leading
/// dots and without children, then each child's chain one level deeper. A
/// child of another kind is an error.
pub open spec fn chain_flat(n: Node, kind: Seq<char>, depth: nat) -> Result<Seq<Node>, Seq<char>>
    decreases n, 1nat,
{
    let head = Node { name: dots(depth) + n.name, children: None, ..n };
    match n.children {
        Some(cs) => if exists|i: int| 0 <= i < cs.len() && cs[i].name != kind {
            Err("mixed child kind under "@ + n.name)
        } else {
            match chain_flat_list(cs, kind, depth + 1) {
                Err(e) => Err(e),
                Ok(rest) => Ok(seq![head] + rest),
            }
        },
        None => Ok(seq![head]),
    }
}

pub open spec fn chain_flat_list(cs: Seq<Node>, kind: Seq<char>, depth: nat) -> Result<
    Seq<Node>,
    Seq<char>,
>
    decreases cs, 0nat,
{
    if cs.len() == 0 {
        Ok(Seq::empty())
    } else {
        match chain_flat_list(cs.drop_last(), kind, depth) {
            Err(e) => Err(e),
            Ok(a) => match chain_flat(cs.last(), kind, depth) {
                Err(e) => Err(e),
                Ok(b) => Ok(a + b),
            },
        }
    }
}

/// Nested chains of `kind` collapsed into dotted lists, outside marker
/// nodes; whether one was met, or the first error.
pub open spec fn collapse_chains(ns: Seq<Node>, kind: Seq<char>, conv: Convention) -> Result<
    (Seq<Node>, bool),
    Seq<char>,
>
    decreases ns,
{
    if ns.len() == 0 {
        Ok((Seq::empty(), false))
    } else {
        match collapse_chains(ns.drop_last(), kind, conv) {
            Err(e) => Err(e),
            Ok((a, ca)) => {
                let n = ns.last();
                if n.name == kind {
                    match chain_flat(n, kind, 0) {
                        Err(e) => Err(e),
                        Ok(list) => Ok((a + list, true)),
                    }
                } else {
                    match n.children {
                        Some(c) => if is_marker(conv, n.name) {
                            Ok((a.push(n), ca))
                        } else {
                            match collapse_chains(c, kind, conv) {
                                Err(e) => Err(e),
                                Ok((cs, cc)) => Ok((a.push(with_children(n, cs)), ca || cc)),
                            }
                        },
                        None => Ok((a.push(n), ca)),
                    }
                }
            },
        }
    }
}

proof fn lemma_nodes_view_add(a: Seq<KdlNode>, b: Seq<KdlNode>)
    ensures
        nodes_view(a + b) == nodes_view(a) + nodes_view(b),
    decreases b.len(),
{
    if b.len() == 0 {
        assert(a + b =~= a);
        assert(nodes_view(a) + nodes_view(b) =~= nodes_view(a));
    } else {
        assert((a + b).drop_last() =~= a + b.drop_last());
        assert((a + b).last() == b.last());
        lemma_nodes_view_add(a, b.drop_last());
        assert(b =~= b.drop_last().push(b.last()));
        lemma_nodes_view_push(b.drop_last(), b.last());
        assert(nodes_view(a + b) =~= nodes_view(a) + nodes_view(b));
    }
}

/// Adds `x` as the last child `d - 1` levels down the last children of `t`.
fn spine_insert_exec(t: KdlNode, d: usize, x: KdlNode) -> (r: KdlNode)
    ensures
        r@ == spine_insert(t@, d as nat, x@),
    decreases d,
{
    let KdlNode { ty, name, entries, children } = t;
    let mut cs = match children {
        Some(c) => c,
        None => Vec::new(),
    };
    proof {
        lemma_nodes_view(cs@);
    }
    let ghost before = cs@;
    if d <= 1 || cs.len() == 0 {
        cs.push(x);
        proof {
            lemma_nodes_view_push(before, x);
        }
        return KdlNode { ty, name, entries, children: Some(cs) };
    }
    let last = cs.pop().unwrap();
    proof {
        assert(before =~= cs@.push(last));
        lemma_nodes_view_push(cs@, last);
    }
    let inserted = spine_insert_exec(last, d - 1, x);
    let ghost mid = cs@;
    cs.push(inserted);
    proof {
        lemma_nodes_view_push(mid, inserted);
        assert(nodes_view(cs@) =~= nodes_view(before).update(
            nodes_view(before).len() - 1,
            inserted@,
        ));
    }
    KdlNode { ty, name, entries, children: Some(cs) }
}

fn depth_jump_exec(from: usize, to: usize) -> (r: String)
    ensures
        r@ == depth_jump(from as nat, to as nat),
{
    let mut text: Vec<char> = Vec::new();
    push_decimal(&mut text, from as u128);
    let mut out = String::new();
    out.push_str("depth jump from ");
    out.push_str(string_from_chars(text.as_slice(), 0, text.len()).as_str());
    out.push_str(" to ");
    let mut text2: Vec<char> = Vec::new();
    push_decimal(&mut text2, to as u128);
    out.push_str(string_from_chars(text2.as_slice(), 0, text2.len()).as_str());
    proof {
        assert(text@.subrange(0, text@.len() as int) =~= text@);
        assert(text2@.subrange(0, text2@.len() as int) =~= text2@);
        assert(text@ =~= decimal(from as nat));
        assert(text2@ =~= decimal(to as nat));
        assert(out@ =~= depth_jump(from as nat, to as nat));
    }
    out
}

/// A node renamed.
fn renamed(n: &KdlNode, name: String) -> (r: KdlNode)
    ensures
        r@ == (Node { name: name@, ..n@ }),
{
    let children = match &n.children {
        Some(c) => Some(copy_nodes_of(c)),
        None => None,
    };
    KdlNode { ty: copy_opt_text(&n.ty), name, entries: copy_entries(&n.entries), children }
}

fn copy_nodes_of(v: &Vec<KdlNode>) -> (r: Vec<KdlNode>)
    ensures
        nodes_view(r@) == nodes_view(v@),
{
    crate::kdl::value::copy_nodes(v)
}

/// A list read into chains of `kind`.
fn chain_list_exec(ns: &Vec<KdlNode>, kind: &str) -> (r: Result<(Vec<KdlNode>, usize, bool), String>)
    ensures
        match chain_list(nodes_view(ns@), kind@) {
            Ok(st) => r matches Ok(x) && nodes_view(x.0@) == st.out && x.1 == st.open && x.2
                == st.changed,
            Err(e) => r matches Err(x) && x@ == e,
        },
{
    let ghost nv = nodes_view(ns@);
    proof {
        lemma_nodes_view(ns@);
    }
    let mut out: Vec<KdlNode> = Vec::new();
    let mut open: usize = 0;
    let mut changed = false;
    let mut i: usize = 0;
    proof {
        assert(nv.take(0) =~= Seq::<Node>::empty());
        assert(nodes_view(out@) =~= Seq::<Node>::empty());
    }
    while i < ns.len()
        invariant
            nv == nodes_view(ns@),
            nv.len() == ns@.len(),
            forall|k: int| 0 <= k < ns@.len() ==> #[trigger] nv[k] == ns@[k]@,
            0 <= i <= ns@.len(),
            open <= i,
            open > 0 ==> out@.len() > 0,
            chain_list(nv.take(i as int), kind@) == Ok::<ChainState, Seq<char>>(
                ChainState { out: nodes_view(out@), open: open as nat, changed },
            ),
        decreases ns@.len() - i,
    {
        proof {
            assert(nv.take(i + 1).drop_last() =~= nv.take(i as int));
            assert(nv.take(i + 1).last() == ns@[i as int]@);
            lemma_nodes_view(out@);
        }
        let node = &ns[i];
        let chars = str_chars(node.name.as_str());
        let d = leading_dot_count(node.name.as_str());
        proof {
            lemma_leading_dots_bound(chars@);
        }
        let k = string_from_chars(chars.as_slice(), d, chars.len());
        if !str_eq(k.as_str(), kind) {
            let c = copy_node(node);
            let ghost before = out@;
            out.push(c);
            proof {
                lemma_nodes_view_push(before, c);
            }
            open = 0;
        } else if d > open {
            proof {
                lemma_chain_err_extends(nv, i as int, kind@);
            }
            return Err(depth_jump_exec(open, d));
        } else if d == 0 {
            let c = renamed(node, k);
            let ghost before = out@;
            out.push(c);
            proof {
                lemma_nodes_view_push(before, c);
            }
            open = 1;
        } else {
            let c = renamed(node, k);
            let ghost before = out@;
            let last = out.pop().unwrap();
            proof {
                assert(before =~= out@.push(last));
                lemma_nodes_view_push(out@, last);
            }
            let inserted = spine_insert_exec(last, d, c);
            let ghost mid = out@;
            out.push(inserted);
            proof {
                lemma_nodes_view_push(mid, inserted);
                assert(nodes_view(out@) =~= nodes_view(before).update(
                    nodes_view(before).len() - 1,
                    inserted@,
                ));
            }
            open = d + 1;
            changed = true;
        }
        i = i + 1;
    }
    proof {
        assert(nv.take(ns@.len() as int) =~= nv);
    }
    Ok((out, open, changed))
}

proof fn lemma_leading_dots_bound(s: Seq<char>)
    ensures
        leading_dots(s) <= s.len(),
    decreases s.len(),
{
    if s.len() > 0 && s[0] == '.' {
        lemma_leading_dots_bound(s.drop_first());
    }
}

/// An error on a prefix of the list is the error on all of it.
proof fn lemma_chain_err_extends(ns: Seq<Node>, i: int, kind: Seq<char>)
    requires
        0 <= i < ns.len(),
        chain_list(ns.take(i + 1), kind) is Err,
    ensures
        chain_list(ns, kind) == chain_list(ns.take(i + 1), kind),
    decreases ns.len() - i,
{
    if i + 1 < ns.len() {
        assert(ns.drop_last().take(i + 1) =~= ns.take(i + 1));
        lemma_chain_err_extends(ns.drop_last(), i, kind);
    } else {
        assert(ns.take(i + 1) =~= ns);
    }
}

/// The children of the nodes expanded first, in order, stopping at the
/// first error.
fn expand_children_exec(ns: &Vec<KdlNode>, kind: &str, conv: &Convention) -> (r: (
    Vec<KdlNode>,
    Result<bool, String>,
))
    ensures
        nodes_view(r.0@) == expand_children(nodes_view(ns@), kind@, *conv).0,
        match expand_children(nodes_view(ns@), kind@, *conv).1 {
            Ok(b) => r.1 == Ok::<bool, String>(b),
            Err(e) => r.1 matches Err(x) && x@ == e,
        },
    decreases ns, 0nat,
{
    let mut out: Vec<KdlNode> = Vec::new();
    let mut changed = false;
    let mut failure: Option<String> = None;
    let mut i: usize = 0;
    proof {
        assert(ns@.take(0) =~= Seq::<KdlNode>::empty());
        assert(nodes_view(ns@.take(0)) =~= Seq::<Node>::empty());
        assert(nodes_view(out@) =~= Seq::<Node>::empty());
    }
    while i < ns.len()
        invariant
            0 <= i <= ns@.len(),
            nodes_view(out@) == expand_children(nodes_view(ns@.take(i as int)), kind@, *conv).0,
            match expand_children(nodes_view(ns@.take(i as int)), kind@, *conv).1 {
                Ok(b) => failure is None && changed == b,
                Err(e) => failure matches Some(x) && x@ == e,
            },
        decreases ns@.len() - i,
    {
        proof {
            assert(decreases_to!(ns => ns@[i as int]));
            assert(ns@.take(i + 1) =~= ns@.take(i as int).push(ns@[i as int]));
            lemma_nodes_view_push(ns@.take(i as int), ns@[i as int]);
            let sv = nodes_view(ns@.take(i + 1));
            assert(sv.drop_last() =~= nodes_view(ns@.take(i as int)));
            assert(sv.last() == ns@[i as int]@);
        }
        let node = &ns[i];
        let ghost before = out@;
        if failure.is_some() {
            let c = copy_node(node);
            out.push(c);
            proof {
                lemma_nodes_view_push(before, c);
            }
        } else {
            match &node.children {
                Some(c) => {
                    if conv.is_marker_kind(node.name.as_str()) {
                        let x = copy_node(node);
                        out.push(x);
                        proof {
                            lemma_nodes_view_push(before, x);
                        }
                    } else {
                        proof {
                            assert(decreases_to!(ns@[i as int] => ns@[i as int].children));
                        }
                        let (kids, res) = expand_list_exec(c, kind, conv);
                        let x = KdlNode {
                            ty: copy_opt_text(&node.ty),
                            name: node.name.clone(),
                            entries: copy_entries(&node.entries),
                            children: Some(kids),
                        };
                        out.push(x);
                        proof {
                            lemma_nodes_view_push(before, x);
                        }
                        match res {
                            Ok(b) => {
                                changed = changed || b;
                            },
                            Err(e) => {
                                failure = Some(e);
                            },
                        }
                    }
                },
                None => {
                    let x = copy_node(node);
                    out.push(x);
                    proof {
                        lemma_nodes_view_push(before, x);
                    }
                },
            }
        }
        i = i + 1;
    }
    proof {
        assert(ns@.take(ns@.len() as int) =~= ns@);
    }
    match failure {
        Some(e) => (out, Err(e)),
        None => (out, Ok(changed)),
    }
}

/// The list with its dot chains of `kind` nested, children first.
fn expand_list_exec(ns: &Vec<KdlNode>, kind: &str, conv: &Convention) -> (r: (
    Vec<KdlNode>,
    Result<bool, String>,
))
    ensures
        nodes_view(r.0@) == expand_list(nodes_view(ns@), kind@, *conv).0,
        match expand_list(nodes_view(ns@), kind@, *conv).1 {
            Ok(b) => r.1 == Ok::<bool, String>(b),
            Err(e) => r.1 matches Err(x) && x@ == e,
        },
    decreases ns, 1nat,
{
    let (a, res) = expand_children_exec(ns, kind, conv);
    match res {
        Err(e) => (a, Err(e)),
        Ok(ca) => match chain_list_exec(&a, kind) {
            Err(e) => {
                let none: Vec<KdlNode> = Vec::new();
                proof {
                    assert(nodes_view(none@) =~= Seq::<Node>::empty());
                }
                (none, Err(e))
            },
            Ok((out, _, ch)) => (out, Ok(ca || ch)),
        },
    }
}

/// Appends the chain of `node` collapsed into a list, at the level whose
/// dots are `prefix`.
fn collect_chain(
    node: &KdlNode,
    kind: &str,
    prefix: &Vec<char>,
    out: &mut Vec<KdlNode>,
    Ghost(depth): Ghost<nat>,
) -> (r: Result<(), String>)
    requires
        prefix@ == dots(depth),
    ensures
        match chain_flat(node@, kind@, depth) {
            Ok(list) => r is Ok && nodes_view(final(out)@) == nodes_view(old(out)@) + list,
            Err(e) => r matches Err(x) && x@ == e,
        },
    decreases node,
{
    let mut name_chars: Vec<char> = Vec::new();
    let mut k: usize = 0;
    while k < prefix.len()
        invariant
            0 <= k <= prefix@.len(),
            name_chars@ == prefix@.take(k as int),
        decreases prefix@.len() - k,
    {
        name_chars.push(prefix[k]);
        proof {
            assert(name_chars@ =~= prefix@.take(k + 1));
        }
        k = k + 1;
    }
    let own = str_chars(node.name.as_str());
    let mut j: usize = 0;
    proof {
        assert(prefix@.take(prefix@.len() as int) =~= prefix@);
        assert(name_chars@ + own@.take(0) =~= name_chars@);
    }
    let ghost base = name_chars@;
    while j < own.len()
        invariant
            0 <= j <= own@.len(),
            name_chars@ == base + own@.take(j as int),
        decreases own@.len() - j,
    {
        name_chars.push(own[j]);
        proof {
            assert(name_chars@ =~= base + own@.take(j + 1));
        }
        j = j + 1;
    }
    proof {
        assert(own@.take(own@.len() as int) =~= own@);
    }
    let new_name = string_from_chars(name_chars.as_slice(), 0, name_chars.len());
    proof {
        assert(name_chars@.subrange(0, name_chars@.len() as int) =~= name_chars@);
    }
    let head = KdlNode {
        ty: copy_opt_text(&node.ty),
        name: new_name,
        entries: copy_entries(&node.entries),
        children: None,
    };
    match &node.children {
        None => {
            let ghost before = out@;
            out.push(head);
            proof {
                lemma_nodes_view_push(before, head);
                assert(nodes_view(old(out)@) + seq![head@] =~= nodes_view(out@));
            }
            Ok(())
        },
        Some(cs) => {
            proof {
                lemma_nodes_view(cs@);
            }
            let mut m: usize = 0;
            while m < cs.len()
                invariant
                    node@.children == Some(nodes_view(cs@)),
                    0 <= m <= cs@.len(),
                    forall|q: int| 0 <= q < m ==> nodes_view(cs@)[q].name == kind@,
                    nodes_view(cs@).len() == cs@.len(),
                    forall|q: int| 0 <= q < cs@.len() ==> #[trigger] nodes_view(cs@)[q] == cs@[q]@,
                decreases cs@.len() - m,
            {
                if !str_eq(cs[m].name.as_str(), kind) {
                    let mut msg = String::new();
                    msg.push_str("mixed child kind under ");
                    msg.push_str(node.name.as_str());
                    proof {
                        assert(nodes_view(cs@)[m as int].name != kind@);
                        assert(msg@ =~= "mixed child kind under "@ + node.name@);
                    }
                    return Err(msg);
                }
                m = m + 1;
            }
            let ghost before = out@;
            out.push(head);
            proof {
                lemma_nodes_view_push(before, head);
            }
            let mut p: usize = 0;
            let mut next: Vec<char> = Vec::new();
            while p < prefix.len()
                invariant
                    0 <= p <= prefix@.len(),
                    next@ == prefix@.take(p as int),
                decreases prefix@.len() - p,
            {
                next.push(prefix[p]);
                proof {
                    assert(next@ =~= prefix@.take(p + 1));
                }
                p = p + 1;
            }
            next.push('.');
            proof {
                assert(prefix@.take(prefix@.len() as int) =~= prefix@);
                assert(next@ =~= dots(depth + 1));
                assert(decreases_to!(node => node.children));
            }
            let ghost mid = out@;
            let res = collect_list(cs, kind, &next, out, Ghost(depth + 1));
            proof {
                assert(node@.children == Some(nodes_view(cs@)));
                if let Ok(acc) = chain_flat_list(nodes_view(cs@), kind@, depth + 1) {
                    assert(nodes_view(out@) =~= nodes_view(old(out)@) + (seq![head@] + acc));
                }
            }
            res
        },
    }
}

/// Appends the chains of the children `cs`, in order, at the level whose
/// dots are `prefix`.
fn collect_list(
    cs: &Vec<KdlNode>,
    kind: &str,
    prefix: &Vec<char>,
    out: &mut Vec<KdlNode>,
    Ghost(depth): Ghost<nat>,
) -> (r: Result<(), String>)
    requires
        prefix@ == dots(depth),
    ensures
        match chain_flat_list(nodes_view(cs@), kind@, depth) {
            Ok(list) => r is Ok && nodes_view(final(out)@) == nodes_view(old(out)@) + list,
            Err(e) => r matches Err(x) && x@ == e,
        },
    decreases cs,
{
    let ghost mid = out@;
    let ghost csv = nodes_view(cs@);
    proof {
        lemma_nodes_view(cs@);
    }
    let mut q: usize = 0;
    proof {
        assert(csv.take(0) =~= Seq::<Node>::empty());
        assert(nodes_view(out@) =~= nodes_view(mid) + Seq::<Node>::empty());
    }
    while q < cs.len()
        invariant
            mid == old(out)@,
            csv == nodes_view(cs@),
            csv.len() == cs@.len(),
            forall|t: int| 0 <= t < cs@.len() ==> #[trigger] csv[t] == cs@[t]@,
            prefix@ == dots(depth),
            0 <= q <= cs@.len(),
            chain_flat_list(csv.take(q as int), kind@, depth) matches Ok(acc) && nodes_view(out@)
                == nodes_view(mid) + acc,
        decreases cs@.len() - q,
    {
        proof {
            assert(decreases_to!(cs => cs@[q as int]));
            assert(csv.take(q + 1).drop_last() =~= csv.take(q as int));
            assert(csv.take(q + 1).last() == cs@[q as int]@);
        }
        match collect_chain(&cs[q], kind, prefix, out, Ghost(depth)) {
            Err(e) => {
                proof {
                    lemma_flat_list_err_extends(csv, q as int, kind@, depth);
                }
                return Err(e);
            },
            Ok(()) => {
                proof {
                    let acc = chain_flat_list(csv.take(q as int), kind@, depth)->Ok_0;
                    let b = chain_flat(cs@[q as int]@, kind@, depth)->Ok_0;
                    assert(nodes_view(out@) =~= nodes_view(mid) + (acc + b));
                }
            },
        }
        q = q + 1;
    }
    proof {
        assert(csv.take(cs@.len() as int) =~= csv);
    }
    Ok(())
}

/// An error on a prefix of the children is the error on all of them.
proof fn lemma_flat_list_err_extends(cs: Seq<Node>, i: int, kind: Seq<char>, depth: nat)
    requires
        0 <= i < cs.len(),
        chain_flat_list(cs.take(i + 1), kind, depth) is Err,
    ensures
        chain_flat_list(cs, kind, depth) == chain_flat_list(cs.take(i + 1), kind, depth),
    decreases cs.len() - i,
{
    if i + 1 < cs.len() {
        assert(cs.drop_last().take(i + 1) =~= cs.take(i + 1));
        lemma_flat_list_err_extends(cs.drop_last(), i, kind, depth);
    } else {
        assert(cs.take(i + 1) =~= cs);
    }
}

/// An error on a prefix of the nodes is the error on all of them.
proof fn lemma_collapse_err_extends(ns: Seq<Node>, i: int, kind: Seq<char>, conv: Convention)
    requires
        0 <= i < ns.len(),
        collapse_chains(ns.take(i + 1), kind, conv) is Err,
    ensures
        collapse_chains(ns, kind, conv) == collapse_chains(ns.take(i + 1), kind, conv),
    decreases ns.len() - i,
{
    if i + 1 < ns.len() {
        assert(ns.drop_last().take(i + 1) =~= ns.take(i + 1));
        lemma_collapse_err_extends(ns.drop_last(), i, kind, conv);
    } else {
        assert(ns.take(i + 1) =~= ns);
    }
}

proof fn lemma_nodes_view_take(ns: Seq<KdlNode>, k: int)
    requires
        0 <= k <= ns.len(),
    ensures
        nodes_view(ns.take(k)) == nodes_view(ns).take(k),
{
    lemma_nodes_view(ns);
    lemma_nodes_view(ns.take(k));
    assert(nodes_view(ns.take(k)) =~= nodes_view(ns).take(k));
}

/// Nested chains of `kind` collapsed into dotted lists.
fn collapse_chains_exec(ns: &Vec<KdlNode>, kind: &str, conv: &Convention) -> (r: Result<
    (Vec<KdlNode>, bool),
    String,
>)
    ensures
        match collapse_chains(nodes_view(ns@), kind@, *conv) {
            Ok((out, ch)) => r matches Ok(x) && nodes_view(x.0@) == out && x.1 == ch,
            Err(e) => r matches Err(x) && x@ == e,
        },
    decreases ns,
{
    let mut out: Vec<KdlNode> = Vec::new();
    let mut changed = false;
    let mut i: usize = 0;
    let empty: Vec<char> = Vec::new();
    proof {
        assert(empty@ =~= dots(0));
        assert(ns@.take(0) =~= Seq::<KdlNode>::empty());
        assert(nodes_view(ns@.take(0)) =~= Seq::<Node>::empty());
        assert(nodes_view(out@) =~= Seq::<Node>::empty());
    }
    while i < ns.len()
        invariant
            empty@ == dots(0),
            0 <= i <= ns@.len(),
            collapse_chains(nodes_view(ns@.take(i as int)), kind@, *conv) == Ok::<
                (Seq<Node>, bool),
                Seq<char>,
            >((nodes_view(out@), changed)),
        decreases ns@.len() - i,
    {
        proof {
            assert(decreases_to!(ns => ns@[i as int]));
            assert(ns@.take(i + 1) =~= ns@.take(i as int).push(ns@[i as int]));
            lemma_nodes_view_push(ns@.take(i as int), ns@[i as int]);
            let sv = nodes_view(ns@.take(i + 1));
            assert(sv.drop_last() =~= nodes_view(ns@.take(i as int)));
            assert(sv.last() == ns@[i as int]@);
            lemma_nodes_view_take(ns@, i + 1);
            lemma_nodes_view(ns@);
        }
        let node = &ns[i];
        let ghost before = out@;
        if str_eq(node.name.as_str(), kind) {
            match collect_chain(node, kind, &empty, &mut out, Ghost(0)) {
                Err(e) => {
                    proof {
                        lemma_collapse_err_extends(nodes_view(ns@), i as int, kind@, *conv);
                    }
                    return Err(e);
                },
                Ok(()) => {
                    changed = true;
                },
            }
        } else {
            match &node.children {
                Some(c) => {
                    if conv.is_marker_kind(node.name.as_str()) {
                        let x = copy_node(node);
                        out.push(x);
                        proof {
                            lemma_nodes_view_push(before, x);
                        }
                    } else {
                        proof {
                            assert(decreases_to!(ns@[i as int] => ns@[i as int].children));
                        }
                        match collapse_chains_exec(c, kind, conv) {
                            Err(e) => {
                                proof {
                                    lemma_collapse_err_extends(nodes_view(ns@), i as int, kind@, *conv);
                                }
                                return Err(e);
                            },
                            Ok((kids, cc)) => {
                                proof {
                                    lemma_nodes_view(kids@);
                                }
                                let children = if kids.len() > 0 {
                                    Some(kids)
                                } else {
                                    None
                                };
                                let x = KdlNode {
                                    ty: copy_opt_text(&node.ty),
                                    name: node.name.clone(),
                                    entries: copy_entries(&node.entries),
                                    children,
                                };
                                out.push(x);
                                proof {
                                    lemma_nodes_view_push(before, x);
                                }
                                changed = changed || cc;
                            },
                        }
                    }
                },
                None => {
                    let x = copy_node(node);
                    out.push(x);
                    proof {
                        lemma_nodes_view_push(before, x);
                    }
                },
            }
        }
        i = i + 1;
    }
    proof {
        assert(ns@.take(ns@.len() as int) =~= ns@);
    }
    Ok((out, changed))
}

impl Document {
    /// Dot chains of `kind` nested: `call`, `.call`, `..call` become
    /// `call { call { call } }`. A chain that skips a level is reported as
    /// the reason nothing was done, and the document is kept as it is.
    pub fn expand_dot_chain(self, kind: &str, conv: &Convention) -> (r: (Document, TransformOutcome))
        ensures
            match expand_list(nodes_view(self.nodes_spec()), kind@, *conv).1 {
                Ok(ch) => nodes_view(r.0.nodes_spec()) == expand_list(
                    nodes_view(self.nodes_spec()),
                    kind@,
                    *conv,
                ).0 && reports(r.1, ch, "no dot chain"@),
                Err(e) => r.0 == self && (r.1 matches TransformOutcome::NoOp { reason } && reason@
                    == e),
            },
    {
        let (nodes, res) = expand_list_exec(self.nodes_ref(), kind, conv);
        match res {
            Ok(changed) => (
                Document::from_kdl(KdlDocument { nodes }),
                super::transform::outcome_of(changed, "no dot chain"),
            ),
            Err(reason) => (self, TransformOutcome::NoOp { reason }),
        }
    }

    /// Nested chains of `kind` as dot chains: `call { call }` becomes
    /// `call`, `.call`. A child of another kind under a chain keeps the
    /// document as it is, with that as the reason.
    pub fn collapse_dot_chain(self, kind: &str, conv: &Convention) -> (r: (
        Document,
        TransformOutcome,
    ))
        ensures
            match collapse_chains(nodes_view(self.nodes_spec()), kind@, *conv) {
                Ok((ns, ch)) => nodes_view(r.0.nodes_spec()) == ns && reports(
                    r.1,
                    ch,
                    "no nested chain"@,
                ),
                Err(e) => r.0.nodes_spec() == self.nodes_spec() && (r.1 matches TransformOutcome::NoOp {
                    reason,
                } && reason@ == e),
            },
    {
        match collapse_chains_exec(self.nodes_ref(), kind, conv) {
            Ok((nodes, changed)) => (
                Document::from_kdl(KdlDocument { nodes }),
                super::transform::outcome_of(changed, "no nested chain"),
            ),
            Err(reason) => (self, TransformOutcome::NoOp { reason }),
        }
    }
}

} // verus!
