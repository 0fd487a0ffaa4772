//! A KDL document of structured entities: finding entities by kind and
//! identifier, resolving cross references, and checking that the entities
//! of a file match where the file lies.
use vstd::prelude::*;
use crate::kdl::value::{children_of, KdlDocument, KdlError, KdlNode};
use super::cross_ref::CrossRef;
use super::fs_path::{nsid_of_components, opt_parts, relative_components, relative_parts};
use super::nsid::{nsid_of, NsidPath};
use super::structured::{first_string, nodes_of_kind, StructuredNode};

verus! {

/// A KDL document read as structured entities.
#[derive(Debug, Clone)]
pub struct Document {
    pub(crate) document: KdlDocument,
}

/// How the entities of a file must relate to the file's path.
#[derive(Debug, Clone, Copy, PartialEq, Eq)]
pub enum LayoutMode {
    /// One entity per file, named by the file's path.
    Strict1To1,
    /// Entities whose names extend the file's path.
    Bundle,
    /// No requirement.
    CratisDir,
}

/// How a file breaks its layout.
#[derive(Debug, Clone, Copy, PartialEq, Eq, Structural)]
pub enum LayoutViolationKind {
    StrictMismatch,
    BundlePrefixMismatch,
    IllegalSegment,
    PathOutsideBase,
    StrictMultipleEntities,
}

/// A break of layout in a file.
#[derive(Debug, Clone, PartialEq, Eq)]
pub struct LayoutViolation {
    pub kind: LayoutViolationKind,
    pub file_path: String,
    pub entity_nsid: Option<NsidPath>,
    pub expected_prefix: Option<NsidPath>,
    pub message: String,
}

/// The identifier of an entity: its first string argument, or else its
/// name, read as a namespace path.
pub open spec fn ident_of(n: KdlNode) -> Seq<Seq<char>> {
    match first_string(n) {
        Some(t) => nsid_of(t),
        None => nsid_of(n.name@),
    }
}

/// The first of `nodes` whose identifier is `id`.
pub open spec fn first_with_ident(nodes: Seq<KdlNode>, id: Seq<Seq<char>>) -> Option<KdlNode>
    decreases nodes.len(),
{
    if nodes.len() == 0 {
        None
    } else if ident_of(nodes[0]) == id {
        Some(nodes[0])
    } else {
        first_with_ident(nodes.drop_first(), id)
    }
}

/// The first of `nodes` whose name, read as a namespace path, is `id`.
pub open spec fn first_with_kind(nodes: Seq<KdlNode>, id: Seq<Seq<char>>) -> Option<KdlNode>
    decreases nodes.len(),
{
    if nodes.len() == 0 {
        None
    } else if nsid_of(nodes[0].name@) == id {
        Some(nodes[0])
    } else {
        first_with_kind(nodes.drop_first(), id)
    }
}

/// A descendant of `n` named or identified by `id`, searched depth first:
/// each child is tried, then its own descendants, before the next child.
pub open spec fn descendant(n: KdlNode, id: Seq<Seq<char>>) -> Option<KdlNode>
    decreases n,
{
    match n.children {
        Some(c) => descendant_in(c@, id),
        None => None,
    }
}

pub open spec fn descendant_in(cs: Seq<KdlNode>, id: Seq<Seq<char>>) -> Option<KdlNode>
    decreases cs,
{
    if cs.len() == 0 {
        None
    } else if nsid_of(cs[0].name@) == id || ident_of(cs[0]) == id {
        Some(cs[0])
    } else {
        match descendant(cs[0], id) {
            Some(f) => Some(f),
            None => descendant_in(cs.drop_first(), id),
        }
    }
}

/// The node that a fragment names below an entity: a child named by it, or
/// else a descendant named or identified by it.
pub open spec fn fragment_target(entity: KdlNode, fragment: Seq<char>) -> Option<KdlNode> {
    match first_with_kind(children_of(entity), nsid_of(fragment)) {
        Some(c) => Some(c),
        None => descendant(entity, nsid_of(fragment)),
    }
}

/// What a cross reference resolves to in a document of `nodes`.
pub open spec fn resolved(nodes: Seq<KdlNode>, path: Seq<Seq<char>>, fragment: Option<Seq<char>>) -> Option<KdlNode> {
    if path.len() == 0 {
        match fragment {
            Some(f) => first_with_ident(nodes, nsid_of(f)),
            None => None,
        }
    } else {
        match fragment {
            None => first_with_ident(nodes, path),
            Some(f) => match first_with_ident(nodes, path) {
                Some(e) => fragment_target(e, f),
                None => None,
            },
        }
    }
}

/// What is said of each kind of violation.
pub open spec fn message_of(kind: LayoutViolationKind) -> Seq<char> {
    match kind {
        LayoutViolationKind::StrictMismatch => "top-level entity does not match file path"@,
        LayoutViolationKind::BundlePrefixMismatch =>
            "top-level entity does not include file path as strict prefix"@,
        LayoutViolationKind::IllegalSegment =>
            "file path contains an illegal namespace segment"@,
        LayoutViolationKind::PathOutsideBase => "file path is outside base"@,
        LayoutViolationKind::StrictMultipleEntities =>
            "strict layout accepts exactly one top-level entity"@,
    }
}

/// A violation, as kind, entity and expected prefix.
pub struct Break {
    pub kind: LayoutViolationKind,
    pub entity: Option<Seq<Seq<char>>>,
    pub expected: Option<Seq<Seq<char>>>,
}

pub open spec fn opt_path(o: Option<NsidPath>) -> Option<Seq<Seq<char>>> {
    match o {
        Some(p) => Some(p@),
        None => None,
    }
}

/// `v` is the violation `b` in the file `path`.
pub open spec fn is_break(v: LayoutViolation, b: Break, path: Seq<char>) -> bool {
    v.kind == b.kind && v.file_path@ == path && opt_path(v.entity_nsid) == b.entity && opt_path(
        v.expected_prefix,
    ) == b.expected && v.message@ == message_of(b.kind)
}

/// The violations of strict layout: more than one entity, and a first
/// entity not named `expected`.
pub open spec fn strict_breaks(nodes: Seq<KdlNode>, expected: Seq<Seq<char>>) -> Seq<Break> {
    let many: Seq<Break> = if nodes.len() > 1 {
        seq![
            Break {
                kind: LayoutViolationKind::StrictMultipleEntities,
                entity: None,
                expected: Some(expected),
            },
        ]
    } else {
        Seq::empty()
    };
    if nodes.len() > 0 && ident_of(nodes[0]) != expected {
        many.push(
            Break {
                kind: LayoutViolationKind::StrictMismatch,
                entity: Some(ident_of(nodes[0])),
                expected: Some(expected),
            },
        )
    } else {
        many
    }
}

/// `id` extends `prefix` by at least one segment.
pub open spec fn strict_prefix(id: Seq<Seq<char>>, prefix: Seq<Seq<char>>) -> bool {
    prefix.len() < id.len() && id.take(prefix.len() as int) == prefix
}

/// The violations of bundle layout: each entity whose identifier does not
/// extend `expected`, in order.
pub open spec fn bundle_breaks(nodes: Seq<KdlNode>, expected: Seq<Seq<char>>) -> Seq<Break>
    decreases nodes.len(),
{
    if nodes.len() == 0 {
        Seq::empty()
    } else if strict_prefix(ident_of(nodes.last()), expected) {
        bundle_breaks(nodes.drop_last(), expected)
    } else {
        bundle_breaks(nodes.drop_last(), expected).push(
            Break {
                kind: LayoutViolationKind::BundlePrefixMismatch,
                entity: Some(ident_of(nodes.last())),
                expected: Some(expected),
            },
        )
    }
}

/// The violations of a document of `nodes` in the file whose components
/// below the base are `parts` (`None`: the file is not below the base).
pub open spec fn layout_breaks(
    nodes: Seq<KdlNode>,
    mode: LayoutMode,
    parts: Option<Seq<Option<Seq<char>>>>,
) -> Seq<Break> {
    if mode == LayoutMode::CratisDir {
        Seq::empty()
    } else {
        match parts {
            None => seq![
                Break { kind: LayoutViolationKind::PathOutsideBase, entity: None, expected: None },
            ],
            Some(ps) => match nsid_of_components(ps) {
                None => seq![
                    Break {
                        kind: LayoutViolationKind::IllegalSegment,
                        entity: None,
                        expected: None,
                    },
                ],
                Some(expected) => if mode == LayoutMode::Strict1To1 {
                    strict_breaks(nodes, expected)
                } else {
                    bundle_breaks(nodes, expected)
                },
            },
        }
    }
}

/// `vs` are the violations `bs`, in the file `path`.
pub open spec fn are_breaks(vs: Seq<LayoutViolation>, bs: Seq<Break>, path: Seq<char>) -> bool {
    vs.len() == bs.len() && forall|i: int| 0 <= i < vs.len() ==> is_break(#[trigger] vs[i], bs[i], path)
}

fn violation(
    kind: LayoutViolationKind,
    file_path: &str,
    entity_nsid: Option<NsidPath>,
    expected_prefix: Option<NsidPath>,
) -> (r: LayoutViolation)
    ensures
        is_break(
            r,
            Break { kind, entity: opt_path(entity_nsid), expected: opt_path(expected_prefix) },
            file_path@,
        ),
{
    let message = match kind {
        LayoutViolationKind::StrictMismatch => "top-level entity does not match file path",
        LayoutViolationKind::BundlePrefixMismatch =>
            "top-level entity does not include file path as strict prefix",
        LayoutViolationKind::IllegalSegment => "file path contains an illegal namespace segment",
        LayoutViolationKind::PathOutsideBase => "file path is outside base",
        LayoutViolationKind::StrictMultipleEntities =>
            "strict layout accepts exactly one top-level entity",
    };
    LayoutViolation {
        kind,
        file_path: file_path.to_owned(),
        entity_nsid,
        expected_prefix,
        message: message.to_owned(),
    }
}

fn copy_path(p: &NsidPath) -> (r: NsidPath)
    ensures
        r@ == p@,
{
    p.copy()
}

impl Document {
    /// The document read.
    pub closed spec fn nodes_spec(&self) -> Seq<KdlNode> {
        self.document.nodes@
    }

    /// The nodes of the document.
    pub(crate) fn nodes_ref(&self) -> (r: &Vec<KdlNode>)
        ensures
            r@ == self.nodes_spec(),
    {
        &self.document.nodes
    }

    /// The structured view of a KDL document.
    /// Reads a KDL document, as `kdl::parse` does.
    pub fn parse(input: &str) -> (r: Result<Document, KdlError>)
        requires
            input@.len() + 16 < usize::MAX,
        ensures
            match crate::kdl::grammar::kdl_document(input@) {
                Ok(ns) => r matches Ok(d) && crate::kdl::value::nodes_view(d.nodes_spec()) == ns,
                Err(e) => r == Err::<Document, KdlError>(e),
            },
    {
        match crate::kdl::parse::parse(input) {
            Ok(d) => Ok(Document::from_kdl(d)),
            Err(e) => Err(e),
        }
    }

    pub fn from_kdl(document: KdlDocument) -> (r: Self)
        ensures
            r.nodes_spec() == document.nodes@,
    {
        Document { document }
    }

    /// The KDL document.
    pub fn as_kdl(&self) -> (r: &KdlDocument)
        ensures
            r.nodes@ == self.nodes_spec(),
    {
        &self.document
    }

    /// The top-level entities, in order.
    pub fn structured_nodes(&self) -> (r: Vec<StructuredNode<'_>>)
        ensures
            r@.len() == self.nodes_spec().len(),
            forall|i: int|
                0 <= i < r@.len() ==> (#[trigger] r@[i]).node_spec() == self.nodes_spec()[i],
    {
        let ns = &self.document.nodes;
        let mut out: Vec<StructuredNode<'_>> = Vec::new();
        let mut i: usize = 0;
        while i < ns.len()
            invariant
                ns@ == self.nodes_spec(),
                0 <= i <= ns@.len(),
                out@.len() == i,
                forall|k: int| 0 <= k < i ==> (#[trigger] out@[k]).node_spec() == ns@[k],
            decreases ns@.len() - i,
        {
            out.push(StructuredNode::from_kdl(&ns[i]));
            i = i + 1;
        }
        out
    }

    /// The top-level entities whose kind is `kind`, in order.
    pub fn find_by_kind(&self, kind: &NsidPath) -> (r: Vec<StructuredNode<'_>>)
        ensures
            r@.map_values(|x: StructuredNode| x.node_spec()) == nodes_of_kind(
                self.nodes_spec(),
                kind@,
            ),
    {
        let ns = &self.document.nodes;
        let mut out: Vec<StructuredNode<'_>> = Vec::new();
        let mut i: usize = 0;
        proof {
            assert(ns@.take(0) =~= Seq::<KdlNode>::empty());
            assert(out@.map_values(|x: StructuredNode| x.node_spec()) =~= nodes_of_kind(
                ns@.take(0),
                kind@,
            ));
        }
        while i < ns.len()
            invariant
                ns@ == self.nodes_spec(),
                0 <= i <= ns@.len(),
                out@.map_values(|x: StructuredNode| x.node_spec()) == nodes_of_kind(
                    ns@.take(i as int),
                    kind@,
                ),
            decreases ns@.len() - i,
        {
            let node = StructuredNode::from_kdl(&ns[i]);
            let ghost before = out@;
            proof {
                assert(ns@.take(i + 1).drop_last() =~= ns@.take(i as int));
                assert(ns@.take(i + 1).last() == ns@[i as int]);
            }
            if node.node_name_as_nsid().same_as(kind) {
                out.push(node);
                proof {
                    assert(out@.map_values(|x: StructuredNode| x.node_spec()) =~= before.map_values(
                        |x: StructuredNode| x.node_spec(),
                    ).push(ns@[i as int]));
                }
            }
            i = i + 1;
        }
        proof {
            assert(ns@.take(ns@.len() as int) =~= ns@);
        }
        out
    }

    /// The first top-level entity of kind `kind` with identifier
    /// `identifier`.
    pub fn find_by_kind_and_identifier(
        &self,
        kind: &NsidPath,
        identifier: &NsidPath,
    ) -> (r: Option<StructuredNode<'_>>)
        ensures
            match first_with_ident(nodes_of_kind(self.nodes_spec(), kind@), identifier@) {
                Some(n) => r matches Some(x) && x.node_spec() == n,
                None => r is None,
            },
    {
        let found = self.find_by_kind(kind);
        let ghost ks = nodes_of_kind(self.nodes_spec(), kind@);
        let mut i: usize = 0;
        proof {
            assert(ks.skip(0) =~= ks);
        }
        while i < found.len()
            invariant
                ks == nodes_of_kind(self.nodes_spec(), kind@),
                found@.map_values(|x: StructuredNode| x.node_spec()) == ks,
                0 <= i <= found@.len(),
                first_with_ident(ks, identifier@) == first_with_ident(ks.skip(i as int), identifier@),
            decreases found@.len() - i,
        {
            proof {
                assert(ks.skip(i as int).drop_first() =~= ks.skip(i + 1));
                assert(ks.skip(i as int)[0] == ks[i as int]);
                assert(ks[i as int] == found@[i as int].node_spec());
            }
            let node = found[i];
            proof {
                assert(node == found@[i as int]);
                assert(node.node_spec() == ks[i as int]);
            }
            let name = node.structured_name();
            if name.identifier.same_as(identifier) {
                proof {
                    assert(ident_of(ks[i as int]) == identifier@);
                }
                return Some(node);
            }
            i = i + 1;
        }
        None
    }

    /// The first top-level entity with identifier `identifier`.
    pub fn find_by_identifier(&self, identifier: &NsidPath) -> (r: Option<StructuredNode<'_>>)
        ensures
            match first_with_ident(self.nodes_spec(), identifier@) {
                Some(n) => r matches Some(x) && x.node_spec() == n,
                None => r is None,
            },
    {
        let ns = &self.document.nodes;
        let mut i: usize = 0;
        proof {
            assert(ns@.skip(0) =~= ns@);
        }
        while i < ns.len()
            invariant
                ns@ == self.nodes_spec(),
                0 <= i <= ns@.len(),
                first_with_ident(ns@, identifier@) == first_with_ident(ns@.skip(i as int), identifier@),
            decreases ns@.len() - i,
        {
            proof {
                assert(ns@.skip(i as int).drop_first() =~= ns@.skip(i + 1));
                assert(ns@.skip(i as int)[0] == ns@[i as int]);
            }
            let node = StructuredNode::from_kdl(&ns[i]);
            if node.structured_name().identifier.same_as(identifier) {
                return Some(node);
            }
            i = i + 1;
        }
        None
    }

    /// The entity or node that a cross reference names: a local reference
    /// names the entity identified by its fragment; a path names the entity
    /// it identifies, and with a fragment the node the fragment names below
    /// it.
    pub fn resolve(&self, cross_ref: &CrossRef) -> (r: Option<StructuredNode<'_>>)
        ensures
            match resolved(
                self.nodes_spec(),
                cross_ref.path@,
                super::cross_ref::opt_view(cross_ref.fragment),
            ) {
                Some(n) => r matches Some(x) && x.node_spec() == n,
                None => r is None,
            },
    {
        let local = cross_ref.is_local();
        match cross_ref.fragment() {
            Some(fragment) => {
                if local {
                    self.find_by_identifier(&NsidPath::parse(fragment))
                } else if cross_ref.nsid().is_empty() {
                    None
                } else {
                    match self.find_by_identifier(cross_ref.nsid()) {
                        Some(entity) => find_fragment(entity, fragment),
                        None => None,
                    }
                }
            },
            None => {
                if cross_ref.nsid().is_empty() {
                    None
                } else {
                    self.find_by_identifier(cross_ref.nsid())
                }
            },
        }
    }

    /// The layout violations of the document in the file `file_path` below
    /// the directory `base`: none in `CratisDir` mode; a file outside the
    /// base, or whose path names no well-formed namespace path, is one
    /// violation; else strict or bundle layout is checked against the
    /// namespace path of the file.
    pub fn verify_layout(&self, mode: LayoutMode, file_path: &str, base: &str) -> (r: Vec<
        LayoutViolation,
    >)
        ensures
            are_breaks(r@, layout_breaks(self.nodes_spec(), mode, relative_parts(file_path@, base@)), file_path@),
            mode == LayoutMode::CratisDir ==> r@.len() == 0,
            forall|i: int|
                0 <= i < r@.len() ==> (#[trigger] r@[i]).file_path@ == file_path@ && r@[i].message@
                    == message_of(r@[i].kind),
    {
        if let LayoutMode::CratisDir = mode {
            return Vec::new();
        }
        self.layout_violations(mode, file_path, relative_components(file_path, base))
    }

    /// The layout violations of the document in the file `file_path` whose
    /// components below the base are `parts` (`None`: not below the base).
    pub fn layout_violations(
        &self,
        mode: LayoutMode,
        file_path: &str,
        parts: Option<Vec<Option<String>>>,
    ) -> (r: Vec<LayoutViolation>)
        ensures
            are_breaks(r@, layout_breaks(self.nodes_spec(), mode, opt_parts(parts)), file_path@),
            forall|i: int|
                0 <= i < r@.len() ==> (#[trigger] r@[i]).file_path@ == file_path@ && r@[i].message@
                    == message_of(r@[i].kind),
    {
        let mut out: Vec<LayoutViolation> = Vec::new();
        if let LayoutMode::CratisDir = mode {
            return out;
        }
        match parts {
            None => {
                out.push(violation(LayoutViolationKind::PathOutsideBase, file_path, None, None));
                proof {
                    assert(are_breaks(
                        out@,
                        layout_breaks(self.nodes_spec(), mode, opt_parts(parts)),
                        file_path@,
                    ));
                }
                out
            },
            Some(ps) => match NsidPath::from_components(&ps) {
                None => {
                    out.push(violation(LayoutViolationKind::IllegalSegment, file_path, None, None));
                    proof {
                        assert(are_breaks(
                            out@,
                            layout_breaks(self.nodes_spec(), mode, opt_parts(parts)),
                            file_path@,
                        ));
                    }
                    out
                },
                Some(expected) => {
                    if let LayoutMode::Strict1To1 = mode {
                        self.verify_strict_layout(file_path, expected)
                    } else {
                        self.verify_bundle_layout(file_path, expected)
                    }
                },
            },
        }
    }

    fn verify_strict_layout(&self, file_path: &str, expected: NsidPath) -> (r: Vec<LayoutViolation>)
        ensures
            are_breaks(r@, strict_breaks(self.nodes_spec(), expected@), file_path@),
    {
        let nodes = self.structured_nodes();
        let mut violations: Vec<LayoutViolation> = Vec::new();
        if nodes.len() > 1 {
            violations.push(
                violation(
                    LayoutViolationKind::StrictMultipleEntities,
                    file_path,
                    None,
                    Some(copy_path(&expected)),
                ),
            );
        }
        if nodes.len() > 0 {
            let actual = nodes[0].structured_name().identifier;
            if !actual.same_as(&expected) {
                violations.push(
                    violation(
                        LayoutViolationKind::StrictMismatch,
                        file_path,
                        Some(actual),
                        Some(expected),
                    ),
                );
            }
        }
        proof {
            assert(are_breaks(violations@, strict_breaks(self.nodes_spec(), expected@), file_path@));
        }
        violations
    }

    fn verify_bundle_layout(&self, file_path: &str, expected: NsidPath) -> (r: Vec<LayoutViolation>)
        ensures
            are_breaks(r@, bundle_breaks(self.nodes_spec(), expected@), file_path@),
    {
        let nodes = self.structured_nodes();
        let ghost ns = self.nodes_spec();
        let mut out: Vec<LayoutViolation> = Vec::new();
        let mut i: usize = 0;
        proof {
            assert(ns.take(0) =~= Seq::<KdlNode>::empty());
        }
        while i < nodes.len()
            invariant
                ns == self.nodes_spec(),
                nodes@.len() == ns.len(),
                forall|k: int| 0 <= k < nodes@.len() ==> (#[trigger] nodes@[k]).node_spec() == ns[k],
                0 <= i <= nodes@.len(),
                are_breaks(out@, bundle_breaks(ns.take(i as int), expected@), file_path@),
            decreases nodes@.len() - i,
        {
            proof {
                assert(ns.take(i + 1).drop_last() =~= ns.take(i as int));
                assert(ns.take(i + 1).last() == ns[i as int]);
            }
            let actual = nodes[i].structured_name().identifier;
            let ok = actual.starts_with(&expected) && actual.len() > expected.len();
            if !ok {
                let v = violation(
                    LayoutViolationKind::BundlePrefixMismatch,
                    file_path,
                    Some(actual),
                    Some(copy_path(&expected)),
                );
                out.push(v);
            }
            i = i + 1;
        }
        proof {
            assert(ns.take(ns.len() as int) =~= ns);
        }
        out
    }
}

/// The node a fragment names below an entity.
fn find_fragment<'a>(entity: StructuredNode<'a>, fragment: &str) -> (r: Option<StructuredNode<'a>>)
    ensures
        match fragment_target(entity.node_spec(), fragment@) {
            Some(n) => r matches Some(x) && x.node_spec() == n,
            None => r is None,
        },
{
    let fragment_nsid = NsidPath::parse(fragment);
    let children = entity.children();
    let ghost cs = children_of(entity.node_spec());
    let mut i: usize = 0;
    proof {
        assert(cs.skip(0) =~= cs);
    }
    while i < children.len()
        invariant
            fragment_nsid@ == nsid_of(fragment@),
            cs == children_of(entity.node_spec()),
            children@.len() == cs.len(),
            forall|k: int| 0 <= k < children@.len() ==> (#[trigger] children@[k]).node_spec() == cs[k],
            0 <= i <= children@.len(),
            first_with_kind(cs, fragment_nsid@) == first_with_kind(cs.skip(i as int), fragment_nsid@),
        decreases children@.len() - i,
    {
        proof {
            assert(cs.skip(i as int).drop_first() =~= cs.skip(i + 1));
            assert(cs.skip(i as int)[0] == cs[i as int]);
        }
        if children[i].node_name_as_nsid().same_as(&fragment_nsid) {
            return Some(children[i]);
        }
        i = i + 1;
    }
    find_child_identifier(entity, &fragment_nsid)
}

/// A descendant of `node` named or identified by `identifier`, depth first.
fn find_child_identifier<'a>(node: StructuredNode<'a>, identifier: &NsidPath) -> (r: Option<
    StructuredNode<'a>,
>)
    ensures
        match descendant(node.node_spec(), identifier@) {
            Some(n) => r matches Some(x) && x.node_spec() == n,
            None => r is None,
        },
    decreases node.node_spec(),
{
    let kdl = node.as_kdl();
    match &kdl.children {
        Some(cs) => {
            proof {
                assert(decreases_to!(node.node_spec() => node.node_spec().children));
            }
            find_in_children(cs, identifier)
        },
        None => None,
    }
}

fn find_in_children<'a>(cs: &'a Vec<KdlNode>, identifier: &NsidPath) -> (r: Option<
    StructuredNode<'a>,
>)
    ensures
        match descendant_in(cs@, identifier@) {
            Some(n) => r matches Some(x) && x.node_spec() == n,
            None => r is None,
        },
    decreases cs@,
{
    let mut i: usize = 0;
    proof {
        assert(cs@.skip(0) =~= cs@);
    }
    while i < cs.len()
        invariant
            0 <= i <= cs@.len(),
            descendant_in(cs@, identifier@) == descendant_in(cs@.skip(i as int), identifier@),
        decreases cs@.len() - i,
    {
        proof {
            assert(cs@.skip(i as int).drop_first() =~= cs@.skip(i + 1));
            assert(cs@.skip(i as int)[0] == cs@[i as int]);
        }
        let child = StructuredNode::from_kdl(&cs[i]);
        if child.node_name_as_nsid().same_as(identifier) || child.structured_name().identifier.same_as(
            identifier,
        ) {
            return Some(child);
        }
        proof {
            assert(decreases_to!(cs@ => cs@[i as int]));
        }
        match find_child_identifier(child, identifier) {
            Some(found) => {
                return Some(found);
            },
            None => {},
        }
        i = i + 1;
    }
    None
}

impl<'a> crate::ast::StructuredDocument<'a> for Document {
    type Node = StructuredNode<'a>;

    /// One view for each top-level node, in order.
    open spec fn nodes_are(&self, ns: Seq<StructuredNode<'a>>) -> bool {
        ns.len() == self.nodes_spec().len() && forall|i: int|
            0 <= i < ns.len() ==> (#[trigger] ns[i]).node_spec() == self.nodes_spec()[i]
    }

    fn nodes(&'a self) -> (r: Vec<StructuredNode<'a>>) {
        self.structured_nodes()
    }
}

} // verus!
