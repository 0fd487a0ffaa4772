use neco::ast::{StructuredField, StructuredNumber, StructuredValue};
use neco::kdl::{KdlNode, KdlValue};
use neco::kdl_ast::structured::{StructuredFacade, StructuredName, StructuredNode};
use neco::kdl_ast::{CrossRefParseError, NsidPath};

fn entity(name: &str, arg: &str) -> KdlNode {
    KdlNode::builder(name).string_arg(arg).build()
}

#[test]
fn form_x_kind_is_node_name() {
    let n = entity("entity", "alpha.beta");
    let node = StructuredNode::from_kdl(&n);
    assert_eq!(
        node.structured_name_form_x(),
        StructuredName {
            kind: Some(NsidPath::parse("entity")),
            identifier: NsidPath::parse("alpha.beta")
        }
    );
}

#[test]
fn form_y_kind_is_none() {
    let n = KdlNode::builder("alpha.beta").build();
    let node = StructuredNode::from_kdl(&n);
    assert_eq!(node.structured_name_form_y().kind, None);
    assert_eq!(node.structured_name_form_y().identifier, NsidPath::parse("alpha.beta"));
}

#[test]
fn structured_name_prefers_form_x_when_first_arg_present() {
    let n = entity("entity", "alpha.beta");
    let node = StructuredNode::from_kdl(&n);
    assert_eq!(node.structured_name().kind, Some(NsidPath::parse("entity")));
    let n = KdlNode::builder("alpha.beta").build();
    assert_eq!(StructuredNode::from_kdl(&n).structured_name().kind, None);
}

#[test]
fn names_with_dots_are_multi_segment() {
    let n = entity("alpha.beta.gamma", "x.y.z");
    let node = StructuredNode::from_kdl(&n);
    assert_eq!(node.node_name_as_nsid().len(), 3);
    assert_eq!(node.first_arg_as_nsid().expect("first arg").len(), 3);
    assert_eq!(node.kind(), NsidPath::parse("alpha.beta.gamma"));
    assert_eq!(node.identifier(), Some(NsidPath::parse("x.y.z")));
}

#[test]
fn cross_ref_args() {
    let n = entity("edge", "alpha.beta#frag");
    let node = StructuredNode::from_kdl(&n);
    assert_eq!(node.cross_ref_arg().expect("arg").expect("cross ref").fragment(), Some("frag"));
    let n = KdlNode::builder("edge").build();
    assert!(StructuredNode::from_kdl(&n).cross_ref_arg().is_none());
    let n = entity("edge", "alpha..beta");
    assert_eq!(
        StructuredNode::from_kdl(&n).cross_ref_arg().expect("arg"),
        Err(CrossRefParseError::EmptySegment)
    );
    let n = KdlNode::builder("edge").string_arg("alpha").int_arg(1).string_arg("beta#frag").build();
    assert_eq!(StructuredNode::from_kdl(&n).cross_ref_string_args().len(), 2);
}

#[test]
fn cross_ref_prop_for_named_property() {
    let n = KdlNode::builder("edge").int_prop("ref", 1).string_prop("ref", "alpha.beta").build();
    let node = StructuredNode::from_kdl(&n);
    assert_eq!(
        node.cross_ref_prop("ref").expect("property").expect("cross ref").nsid(),
        &NsidPath::parse("alpha.beta")
    );
    assert!(node.cross_ref_prop("other").is_none());
}

#[test]
fn attribute_str_paths() {
    let n = KdlNode::builder("node").string_prop("key", "value").build();
    assert_eq!(StructuredNode::from_kdl(&n).attribute_str("key"), Some("value"));
    let n = KdlNode::builder("node").child(entity("key", "value")).build();
    assert_eq!(StructuredNode::from_kdl(&n).attribute_str("key"), Some("value"));
    let n = KdlNode::builder("node")
        .string_prop("key", "property")
        .child(entity("key", "child"))
        .build();
    assert_eq!(StructuredNode::from_kdl(&n).attribute_str("key"), Some("property"));
}

#[test]
fn attribute_bool_paths() {
    let n = KdlNode::builder("node").bool_prop("flag", true).build();
    assert_eq!(StructuredNode::from_kdl(&n).attribute_bool("flag"), Some(true));
    let n = KdlNode::builder("node").child(KdlNode::builder("flag").bool_arg(false).build()).build();
    assert_eq!(StructuredNode::from_kdl(&n).attribute_bool("flag"), Some(false));
    assert_eq!(StructuredNode::from_kdl(&n).attribute_bool("none"), None);
}

#[test]
fn dot_chain_depth_and_kind() {
    for (name, depth) in [("step", 0), (".step", 1), ("..step", 2)] {
        let n = KdlNode::builder(name).build();
        let node = StructuredNode::from_kdl(&n);
        assert_eq!(node.dot_chain_depth(), depth);
        assert_eq!(node.dot_chain_kind(), "step");
    }
}

#[test]
fn find_child_kind_filters() {
    let n = KdlNode::builder("node").child(entity("item", "a")).child(entity("other", "b")).build();
    let node = StructuredNode::from_kdl(&n);
    assert_eq!(node.find_child_kind(&NsidPath::parse("item")).len(), 1);
    assert!(node.find_child_kind(&NsidPath::parse("none")).is_empty());
    assert_eq!(node.children().len(), 2);
}

#[test]
fn value_collects_properties_then_args() {
    let n = KdlNode::builder("node")
        .string_arg("a")
        .int_prop("k", 3)
        .arg(KdlValue::Null)
        .build();
    let node = StructuredNode::from_kdl(&n);
    assert_eq!(
        node.value(),
        StructuredValue::Mapping(vec![
            StructuredField {
                key: "k".to_string(),
                value: StructuredValue::Number(StructuredNumber::from_parts("3".to_string())),
            },
            StructuredField {
                key: "$args".to_string(),
                value: StructuredValue::Sequence(vec![
                    StructuredValue::String("a".to_string()),
                    StructuredValue::Null
                ]),
            },
        ])
    );
    let n = KdlNode::builder("node").child(KdlNode::builder("list").int_arg(1).bool_arg(true).build()).build();
    assert_eq!(
        StructuredNode::from_kdl(&n).attribute("list"),
        Some(StructuredValue::Sequence(vec![
            StructuredValue::Number(StructuredNumber::from_parts("1".to_string())),
            StructuredValue::Bool(true)
        ]))
    );
    assert_eq!(StructuredNode::from_kdl(&n).type_annotation(), None);
}

#[test]
fn structured_facade_trait_impl_compiles() {
    fn assert_facade<'a, T: StructuredFacade<'a>>(_: T) {}

    let item = KdlNode::builder("item").string_arg("a").build();
    let node_kdl = KdlNode::builder("node").child(item).build();
    let node = StructuredNode::from_kdl(&node_kdl);
    assert_eq!(StructuredFacade::kind(&node), NsidPath::parse("node"));
    assert_eq!(StructuredFacade::attribute_str(&node, "item"), Some("a"));
    assert_eq!(StructuredFacade::children(&node).len(), 1);
    assert_facade(node);
}
