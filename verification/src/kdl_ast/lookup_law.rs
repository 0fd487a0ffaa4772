//! What resolving a fragment finds below an entity, and what strict layout
//! reports of a file's first entity.
use vstd::prelude::*;
use crate::kdl::value::{children_of, KdlNode};
use super::document::{
    descendant, descendant_in, first_with_ident, first_with_kind, fragment_target, ident_of,
    layout_breaks, resolved, strict_breaks, LayoutMode, LayoutViolationKind,
};
use super::fs_path::nsid_of_components;
use super::nsid::nsid_of;

verus! {

/// `x` is named `id` (its name read as a namespace path) or identified by
/// it (its first string argument, or else its name).
pub open spec fn named_or_identified(x: KdlNode, id: Seq<Seq<char>>) -> bool {
    nsid_of(x.name@) == id || ident_of(x) == id
}

proof fn lemma_kind_found(nodes: Seq<KdlNode>, id: Seq<Seq<char>>)
    ensures
        first_with_kind(nodes, id) matches Some(c) ==> nsid_of(c.name@) == id,
    decreases nodes.len(),
{
    if nodes.len() > 0 {
        lemma_kind_found(nodes.drop_first(), id);
    }
}

proof fn lemma_descendant_found(n: KdlNode, id: Seq<Seq<char>>)
    ensures
        descendant(n, id) matches Some(x) ==> named_or_identified(x, id),
    decreases n, 1nat,
{
    if let Some(c) = n.children {
        lemma_descendant_in_found(c@, id);
    }
}

proof fn lemma_descendant_in_found(cs: Seq<KdlNode>, id: Seq<Seq<char>>)
    ensures
        descendant_in(cs, id) matches Some(x) ==> named_or_identified(x, id),
    decreases cs, 0nat,
{
    if cs.len() > 0 {
        lemma_descendant_found(cs[0], id);
        lemma_descendant_in_found(cs.drop_first(), id);
    }
}

proof fn lemma_descendant_in_finds(cs: Seq<KdlNode>, id: Seq<Seq<char>>, i: int)
    requires
        0 <= i < cs.len(),
        named_or_identified(cs[i], id) || descendant(cs[i], id) is Some,
    ensures
        descendant_in(cs, id) is Some,
    decreases cs.len(),
{
    if i > 0 && !named_or_identified(cs[0], id) && descendant(cs[0], id) is None {
        assert(cs.drop_first()[i - 1] == cs[i]);
        lemma_descendant_in_finds(cs.drop_first(), id, i - 1);
    }
}

/// What a fragment finds below an entity is named or identified by it.
pub proof fn law_fragment_found_matches(e: KdlNode, f: Seq<char>)
    ensures
        fragment_target(e, f) matches Some(x) ==> named_or_identified(x, nsid_of(f)),
{
    lemma_kind_found(children_of(e), nsid_of(f));
    lemma_descendant_found(e, nsid_of(f));
}

/// Where a child of the entity is named or identified by the fragment (its
/// first string argument being the fragment's path is enough), the
/// fragment finds a node, and that node is named or identified by it.
pub proof fn law_fragment_finds_child(e: KdlNode, f: Seq<char>, i: int)
    requires
        0 <= i < children_of(e).len(),
        named_or_identified(children_of(e)[i], nsid_of(f)),
    ensures
        fragment_target(e, f) matches Some(x) && named_or_identified(x, nsid_of(f)),
{
    law_fragment_found_matches(e, f);
    lemma_descendant_in_finds(children_of(e), nsid_of(f), i);
}

/// A node found below a child is found below the entity too: what is found
/// at any depth is found from the top.
pub proof fn law_descendant_of_child(e: KdlNode, id: Seq<Seq<char>>, i: int)
    requires
        0 <= i < children_of(e).len(),
        descendant(children_of(e)[i], id) is Some,
    ensures
        descendant(e, id) matches Some(x) && named_or_identified(x, id),
{
    lemma_descendant_in_finds(children_of(e), id, i);
    lemma_descendant_found(e, id);
}

/// Resolving a path with a fragment: where the path identifies an entity
/// one of whose children is named or identified by the fragment, the
/// reference resolves to a node named or identified by the fragment.
pub proof fn law_resolve_fragment(
    nodes: Seq<KdlNode>,
    path: Seq<Seq<char>>,
    f: Seq<char>,
    e: KdlNode,
    i: int,
)
    requires
        path.len() > 0,
        first_with_ident(nodes, path) == Some(e),
        0 <= i < children_of(e).len(),
        named_or_identified(children_of(e)[i], nsid_of(f)),
    ensures
        resolved(nodes, path, Some(f)) matches Some(x) && named_or_identified(x, nsid_of(f)),
{
    law_fragment_finds_child(e, f, i);
}

/// Strict layout reports that the first entity does not match the file
/// exactly when its identifier differs from the file's namespace path (an
/// identifier that only begins with the path is a mismatch too), and
/// reports nothing exactly for a single entity identified by that path.
pub proof fn law_strict_mismatch(nodes: Seq<KdlNode>, expected: Seq<Seq<char>>)
    requires
        nodes.len() > 0,
    ensures
        (exists|k: int|
            0 <= k < strict_breaks(nodes, expected).len() && (#[trigger] strict_breaks(
                nodes,
                expected,
            )[k]).kind == LayoutViolationKind::StrictMismatch) <==> ident_of(nodes[0]) != expected,
        strict_breaks(nodes, expected).len() == 0 <==> (nodes.len() == 1 && ident_of(nodes[0])
            == expected),
{
    let bs = strict_breaks(nodes, expected);
    if ident_of(nodes[0]) != expected {
        assert(bs[bs.len() - 1].kind == LayoutViolationKind::StrictMismatch);
    } else {
        assert forall|k: int| 0 <= k < bs.len() implies (#[trigger] bs[k]).kind
            != LayoutViolationKind::StrictMismatch by {}
    }
}

/// The same, for the violations of a file checked in strict mode whose
/// path below the base names the namespace path `expected`.
pub proof fn law_strict_layout(
    nodes: Seq<KdlNode>,
    parts: Seq<Option<Seq<char>>>,
    expected: Seq<Seq<char>>,
)
    requires
        nodes.len() > 0,
        nsid_of_components(parts) == Some(expected),
    ensures
        layout_breaks(nodes, LayoutMode::Strict1To1, Some(parts)) == strict_breaks(nodes, expected),
        (exists|k: int|
            0 <= k < layout_breaks(nodes, LayoutMode::Strict1To1, Some(parts)).len() && (
            #[trigger] layout_breaks(nodes, LayoutMode::Strict1To1, Some(parts))[k]).kind
                == LayoutViolationKind::StrictMismatch) <==> ident_of(nodes[0]) != expected,
{
    law_strict_mismatch(nodes, expected);
}

} // verus!
