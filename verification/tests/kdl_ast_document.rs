use neco::kdl::{KdlDocument, KdlNode};
use neco::kdl_ast::document::{Document, LayoutMode, LayoutViolationKind};
use neco::kdl_ast::{CrossRef, NsidPath};

fn entity(kind: &str, id: &str) -> KdlNode {
    KdlNode::builder(kind).string_arg(id).build()
}

fn doc(nodes: Vec<KdlNode>) -> Document {
    Document::from_kdl(KdlDocument { nodes })
}

#[test]
fn as_kdl_keeps_nodes() {
    let d = doc(vec![entity("entity", "alpha")]);
    assert_eq!(d.as_kdl().nodes().len(), 1);
    assert_eq!(d.structured_nodes().len(), 1);
}

#[test]
fn find_by_kind_returns_matching() {
    let d = doc(vec![entity("entity", "alpha"), entity("other", "beta")]);
    assert_eq!(d.find_by_kind(&NsidPath::parse("entity")).len(), 1);
}

#[test]
fn find_by_kind_and_identifier_match() {
    let d = doc(vec![entity("entity", "alpha.beta")]);
    assert!(d
        .find_by_kind_and_identifier(&NsidPath::parse("entity"), &NsidPath::parse("alpha.beta"))
        .is_some());
    assert!(d
        .find_by_kind_and_identifier(&NsidPath::parse("other"), &NsidPath::parse("alpha.beta"))
        .is_none());
}

#[test]
fn find_by_identifier_match() {
    let d = doc(vec![entity("entity", "alpha.beta")]);
    assert!(d.find_by_identifier(&NsidPath::parse("alpha.beta")).is_some());
}

#[test]
fn resolve_path_only() {
    let d = doc(vec![entity("entity", "alpha.beta")]);
    assert!(d.resolve(&CrossRef::parse("alpha.beta").expect("ref")).is_some());
}

#[test]
fn resolve_local_only() {
    let d = doc(vec![entity("item", "frag")]);
    assert!(d.resolve(&CrossRef::parse("#frag").expect("ref")).is_some());
}

#[test]
fn resolve_path_with_fragment() {
    let defs = KdlNode::builder("defs").child(entity("frag", "value")).build();
    let d = doc(vec![KdlNode::builder("entity").string_arg("alpha.beta").child(defs).build()]);
    let resolved = d.resolve(&CrossRef::parse("alpha.beta#frag").expect("ref"));
    assert_eq!(resolved.map(|n| n.as_kdl().name()), Some("frag"));
}

#[test]
fn resolve_unresolvable() {
    let d = doc(vec![entity("entity", "alpha.beta")]);
    assert!(d.resolve(&CrossRef::parse("missing").expect("ref")).is_none());
}

#[test]
fn axiom_a5b_strict_match() {
    let d = doc(vec![entity("entity", "alpha.beta")]);
    assert!(d
        .verify_layout(LayoutMode::Strict1To1, "base/alpha/beta.kdl", "base")
        .is_empty());
}

#[test]
fn axiom_a5b_strict_mismatch() {
    let d = doc(vec![entity("entity", "other.path")]);
    let v = d.verify_layout(LayoutMode::Strict1To1, "base/alpha/beta.kdl", "base");
    assert_eq!(v[0].kind, LayoutViolationKind::StrictMismatch);
    assert_eq!(v[0].entity_nsid, Some(NsidPath::parse("other.path")));
    assert_eq!(v[0].expected_prefix, Some(NsidPath::parse("alpha.beta")));
    assert_eq!(v[0].message, "top-level entity does not match file path");
    assert_eq!(v[0].file_path, "base/alpha/beta.kdl");
}

#[test]
fn axiom_a5b_strict_multiple_entities() {
    let d = doc(vec![entity("entity", "alpha.beta"), entity("entity", "alpha.gamma")]);
    let v = d.verify_layout(LayoutMode::Strict1To1, "base/alpha/beta.kdl", "base");
    assert!(v.iter().any(|x| x.kind == LayoutViolationKind::StrictMultipleEntities));
    assert_eq!(v.len(), 1);
}

#[test]
fn axiom_a5c_bundle_match() {
    let d = doc(vec![entity("entity", "alpha.beta.one"), entity("entity", "alpha.beta.two")]);
    assert!(d.verify_layout(LayoutMode::Bundle, "base/alpha/beta.kdl", "base").is_empty());
}

#[test]
fn axiom_a5c_bundle_prefix_mismatch() {
    let d = doc(vec![entity("entity", "other.path"), entity("entity", "alpha.beta")]);
    let v = d.verify_layout(LayoutMode::Bundle, "base/alpha/beta.kdl", "base");
    assert_eq!(v.len(), 2);
    assert_eq!(v[0].kind, LayoutViolationKind::BundlePrefixMismatch);
    assert_eq!(v[1].entity_nsid, Some(NsidPath::parse("alpha.beta")));
}

#[test]
fn axiom_a5d_cratis_skip() {
    let d = doc(vec![entity("entity", "other.path")]);
    assert!(d.verify_layout(LayoutMode::CratisDir, "outside/alpha/beta.kdl", "base").is_empty());
}

#[test]
fn verify_layout_path_outside_base() {
    let d = doc(vec![entity("entity", "alpha.beta")]);
    let v = d.verify_layout(LayoutMode::Strict1To1, "outside/alpha/beta.kdl", "base");
    assert_eq!(v[0].kind, LayoutViolationKind::PathOutsideBase);
}

#[test]
fn verify_layout_illegal_segment() {
    let d = doc(vec![entity("entity", "alpha.beta")]);
    let v = d.verify_layout(LayoutMode::Bundle, "base/.hidden/beta.kdl", "base");
    assert_eq!(v.len(), 1);
    assert_eq!(v[0].kind, LayoutViolationKind::IllegalSegment);
}
