use neco::kdl::builder::{KdlDocumentBuilder, KdlNodeBuilder};
use neco::kdl::{parse, KdlDocument, KdlNode};
use neco::kdl_ast::structured::StructuredNode;
use neco::kdl_ast::{CrossRefParseError, Document, NsidPath};

fn first_node(input: &str) -> KdlDocument {
    parse(input).expect("valid KDL")
}

fn node_of(doc: &KdlDocument) -> &KdlNode {
    &doc.nodes[0]
}

#[test]
fn parse_basic() {
    let doc = Document::parse("entity \"alpha\"\n").expect("parse");
    assert_eq!(doc.as_kdl().nodes().len(), 1);
}

#[test]
fn form_y_identifier_is_node_name() {
    let doc = first_node("alpha.beta\n");
    let node = StructuredNode::from_kdl(node_of(&doc));
    assert_eq!(node.structured_name_form_y().identifier, NsidPath::parse("alpha.beta"));
}

#[test]
fn structured_name_default_prefers_form_x_when_first_arg_present() {
    let doc = first_node("entity \"alpha.beta\"\n");
    let node = StructuredNode::from_kdl(node_of(&doc));
    assert_eq!(node.structured_name().kind, Some(NsidPath::parse("entity")));
}

#[test]
fn structured_name_default_falls_back_to_form_y_when_no_first_arg() {
    let doc = first_node("alpha.beta\n");
    let node = StructuredNode::from_kdl(node_of(&doc));
    assert_eq!(node.structured_name().kind, None);
}

#[test]
fn node_name_with_dots_is_multi_segment_nsid() {
    let doc = first_node("alpha.beta.gamma\n");
    let node = StructuredNode::from_kdl(node_of(&doc));
    assert_eq!(node.node_name_as_nsid().len(), 3);
}

#[test]
fn first_arg_with_dots_is_multi_segment_nsid() {
    let doc = first_node("entity \"alpha.beta.gamma\"\n");
    let node = StructuredNode::from_kdl(node_of(&doc));
    assert_eq!(node.first_arg_as_nsid().expect("first arg").len(), 3);
}

#[test]
fn cross_ref_arg_for_string_first_arg() {
    let doc = first_node("edge \"alpha.beta#frag\"\n");
    let node = StructuredNode::from_kdl(node_of(&doc));
    let r = node.cross_ref_arg().expect("arg").expect("cross ref");
    assert_eq!(r.fragment(), Some("frag"));
}

#[test]
fn cross_ref_arg_returns_none_for_no_args() {
    let doc = first_node("edge\n");
    let node = StructuredNode::from_kdl(node_of(&doc));
    assert!(node.cross_ref_arg().is_none());
}

#[test]
fn cross_ref_arg_returns_error_for_malformed() {
    let doc = first_node("edge \"alpha..beta\"\n");
    let node = StructuredNode::from_kdl(node_of(&doc));
    assert_eq!(node.cross_ref_arg().expect("arg"), Err(CrossRefParseError::EmptySegment));
}

#[test]
fn cross_ref_string_args_collects_all() {
    let doc = first_node("edge \"alpha\" 1 \"beta#frag\"\n");
    let node = StructuredNode::from_kdl(node_of(&doc));
    assert_eq!(node.cross_ref_string_args().len(), 2);
}

#[test]
fn attribute_str_property_path() {
    let doc = first_node("node key=\"value\"\n");
    let node = StructuredNode::from_kdl(node_of(&doc));
    assert_eq!(node.attribute_str("key"), Some("value"));
}

#[test]
fn attribute_str_child_arg_path() {
    let doc = first_node("node { key \"value\" }\n");
    let node = StructuredNode::from_kdl(node_of(&doc));
    assert_eq!(node.attribute_str("key"), Some("value"));
}

#[test]
fn attribute_str_property_takes_precedence() {
    let doc = first_node("node key=\"property\" { key \"child\" }\n");
    let node = StructuredNode::from_kdl(node_of(&doc));
    assert_eq!(node.attribute_str("key"), Some("property"));
}

#[test]
fn attribute_bool_property_path() {
    let doc = first_node("node flag=#true\n");
    let node = StructuredNode::from_kdl(node_of(&doc));
    assert_eq!(node.attribute_bool("flag"), Some(true));
}

#[test]
fn dot_chain_depth_zero() {
    let doc = first_node("step\n");
    let node = StructuredNode::from_kdl(node_of(&doc));
    assert_eq!(node.dot_chain_depth(), 0);
}

#[test]
fn dot_chain_depth_one() {
    let doc = first_node(".step\n");
    let node = StructuredNode::from_kdl(node_of(&doc));
    assert_eq!(node.dot_chain_depth(), 1);
}

#[test]
fn dot_chain_depth_two() {
    let doc = first_node("..step\n");
    let node = StructuredNode::from_kdl(node_of(&doc));
    assert_eq!(node.dot_chain_depth(), 2);
}

#[test]
fn dot_chain_kind_strips_leading_dots() {
    let doc = first_node("..step\n");
    let node = StructuredNode::from_kdl(node_of(&doc));
    assert_eq!(node.dot_chain_kind(), "step");
}

#[test]
fn find_child_kind_returns_matching() {
    let doc = first_node("node { item \"a\" other \"b\" }\n");
    let node = StructuredNode::from_kdl(node_of(&doc));
    assert_eq!(node.find_child_kind(&NsidPath::parse("item")).len(), 1);
}

#[test]
fn find_child_kind_empty_for_no_match() {
    let doc = first_node("node { item \"a\" }\n");
    let node = StructuredNode::from_kdl(node_of(&doc));
    assert!(node.find_child_kind(&NsidPath::parse("other")).is_empty());
}

fn assert_roundtrip(input: &str) {
    let parsed = parse(input).unwrap();
    let reparsed = parse(&neco::kdl::serialize(&parsed)).unwrap();
    assert_eq!(reparsed, parsed);
}

#[test]
fn roundtrip_basic_nodes() {
    assert_roundtrip("plain\nargs 1 2 3\nprops key=\"value\" enabled=#true");
}

#[test]
fn roundtrip_type_annotation() {
    assert_roundtrip("(string)name \"value\"");
}

#[test]
fn roundtrip_nested_children() {
    assert_roundtrip("root {\n    branch {\n        leaf \"value\"\n    }\n}");
}

#[test]
fn roundtrip_mixed_document() {
    assert_roundtrip(
        "first 1 mode=\"fast\"\nsecond key=#null {\n    child (u8)1 prop=(i64)-2\n}\nthird \"tail\"",
    );
}

#[test]
fn roundtrip_escaped_string() {
    assert_roundtrip("text \"line1\\nline2\\\\\\\"quoted\\\"\"");
}

#[test]
fn decimal_exponent_no_dot() {
    let doc = parse("n 1e10 ").unwrap();
    match &doc.nodes[0].entries[0] {
        neco::kdl::KdlEntry::Argument { value: neco::kdl::KdlValue::Number(n), .. } => {
            assert_eq!(n.raw.parse::<f64>().ok(), Some(1e10));
        }
        _ => panic!("expected number"),
    }
}

#[test]
fn serialize_then_parse_awkward_text() {
    let node = KdlNodeBuilder::new("my node")
        .string_arg("tab\there \"quoted\" back\\slash\nnext\u{2028}end")
        .string_prop("key with space", "#true")
        .string_arg("")
        .build();
    let doc = KdlDocumentBuilder::new().node(node).build();
    let text = neco::kdl::serialize(&doc);
    let reparsed = parse(&text).unwrap();
    assert_eq!(reparsed, doc);
}

#[test]
fn structured_document_trait_reads_kdl() {
    let doc = Document::parse(
        "(entity)app.user \"u1\" active=#true {\n    label \"User\"\n    flags 1 2\n}\nother",
    )
    .unwrap();
    let nodes = neco::ast::StructuredDocument::nodes(&doc);
    assert_eq!(nodes.len(), 2);
    let user = &nodes[0];
    assert_eq!(neco::ast::StructuredNode::kind(user), "app.user");
    assert_eq!(neco::ast::StructuredNode::identifier(user), Some("u1"));
    assert_eq!(neco::ast::StructuredNode::type_annotation(user), Some("entity"));
    assert_eq!(neco::ast::StructuredNode::attribute_bool(user, "active"), Some(true));
    assert_eq!(
        neco::ast::StructuredNode::attribute_str(user, "label"),
        Some("User".to_string())
    );
    assert_eq!(neco::ast::StructuredNode::attribute_str(user, "missing"), None);
    assert!(neco::ast::StructuredNode::attribute(user, "flags").is_some());
    assert_eq!(neco::ast::StructuredNode::children(user).len(), 2);
    assert_eq!(neco::ast::StructuredNode::identifier(&nodes[1]), None);
    assert!(neco::ast::StructuredNode::children(&nodes[1]).is_empty());
}

#[test]
fn roundtrip_numbers_keywords_and_properties() {
    assert_roundtrip(
        "n #inf #-inf #nan 0x1F -1.5e3 +7 1_000 key=(t)#null flag=#false \"q r\"=(u8)\"v\"\nm {\n    k (x)1\n}",
    );
}

#[test]
fn empty_block_is_written_as_no_block() {
    let doc = parse("a {}").unwrap();
    assert_eq!(doc.nodes[0].children, Some(Vec::new()));
    let text = neco::kdl::serialize(&doc);
    assert_eq!(text, "a\n");
    let reparsed = parse(&text).unwrap();
    assert_eq!(reparsed.nodes[0].children, None);
}
