use neco::kdl::builder::KdlDocumentBuilder;
use neco::kdl::{KdlDocument, KdlNode, KdlNumber, KdlValue};

fn number(raw: &str, n: i64) -> KdlValue {
    KdlValue::Number(KdlNumber { raw: raw.to_string(), as_i64: Some(n) })
}

#[test]
fn node_builder_basic() {
    let n = KdlNode::builder("foo").build();
    assert_eq!(n.name(), "foo");
    assert!(n.entries().is_empty());
    assert!(n.children().is_none());
    assert!(n.ty().is_none());
}

#[test]
fn node_builder_with_ty() {
    let n = KdlNode::builder("v").ty("u32").build();
    assert_eq!(n.ty(), Some("u32"));
}

#[test]
fn node_builder_arg_chain() {
    let n = KdlNode::builder("n").string_arg("first").int_arg(42).bool_arg(true).build();
    assert_eq!(n.entries().len(), 3);
    assert_eq!(n.first_string_arg(), Some("first"));
}

#[test]
fn node_builder_prop_chain() {
    let n = KdlNode::builder("n")
        .string_prop("color", "red")
        .int_prop("count", 7)
        .bool_prop("flag", false)
        .build();
    assert_eq!(n.string_prop("color"), Some("red"));
    assert_eq!(n.int_prop("count"), Some(7));
    assert_eq!(n.bool_prop("flag"), Some(false));
}

#[test]
fn node_builder_typed_arg_and_prop() {
    let n = KdlNode::builder("n")
        .typed_arg("u32", number("1", 1))
        .typed_prop("k", "i64", number("9", 9))
        .build();
    assert_eq!(n.entries()[0].ty(), Some("u32"));
    assert_eq!(n.entries()[1].ty(), Some("i64"));
}

#[test]
fn node_builder_child() {
    let c = KdlNode::builder("inner").string_arg("x").build();
    let n = KdlNode::builder("outer").child(c).build();
    assert_eq!(n.children().map(|s| s.len()), Some(1));
    assert_eq!(n.find_child("inner").and_then(|c| c.first_string_arg()), Some("x"));
}

#[test]
fn node_builder_children_iter() {
    let kids = vec![KdlNode::builder("a").build(), KdlNode::builder("b").build()];
    let n = KdlNode::builder("p").children(kids).build();
    assert_eq!(n.children().map(|s| s.len()), Some(2));
}

#[test]
fn node_builder_duplicate_props() {
    let n = KdlNode::builder("n").string_prop("k", "first").string_prop("k", "second").build();
    assert_eq!(n.entries().len(), 2);
}

#[test]
fn document_builder_basic() {
    let n = KdlNode::builder("alpha").string_arg("v").build();
    let doc = KdlDocument::builder().node(n).build();
    assert_eq!(doc.nodes().len(), 1);
    assert_eq!(doc.nodes()[0].name(), "alpha");
}

#[test]
fn document_builder_nodes_iter() {
    let nodes = vec![
        KdlNode::builder("a").build(),
        KdlNode::builder("b").build(),
        KdlNode::builder("c").build(),
    ];
    let doc = KdlDocument::builder().nodes(nodes).build();
    assert_eq!(doc.nodes().len(), 3);
}

#[test]
fn document_builder_default() {
    let doc = KdlDocumentBuilder::default().build();
    assert!(doc.nodes().is_empty());
}
