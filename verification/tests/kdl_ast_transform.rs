use neco::kdl::{KdlDocument, KdlNode, KdlValue};
use neco::kdl_ast::{AxisForm, Convention, Document, Marker, PropertyChildForm, TransformOutcome};

fn doc(nodes: Vec<KdlNode>) -> Document {
    Document::from_kdl(KdlDocument { nodes })
}

fn leaf(name: &str) -> KdlNode {
    KdlNode::builder(name).build()
}

fn names(d: &Document) -> Vec<String> {
    d.as_kdl().nodes().iter().map(|n| n.name.clone()).collect()
}

fn call(name: &str, arg: &str) -> KdlNode {
    KdlNode::builder(name).string_arg(arg).build()
}

fn same(a: &Document, b: &Document) -> bool {
    a.as_kdl() == b.as_kdl()
}

#[test]
fn flatten_pure_namespace_chain() {
    let d = doc(vec![KdlNode::builder("a").child(KdlNode::builder("b").child(leaf("c")).build()).build()]);
    let (d, outcome) = d.flatten(&Convention::new());
    assert_eq!(outcome, TransformOutcome::Applied);
    assert_eq!(names(&d), vec!["a.b.c"]);
}

#[test]
fn flatten_with_args_at_intermediate_no_op() {
    let d = doc(vec![KdlNode::builder("a").string_arg("x").child(leaf("b")).build()]);
    let (_, outcome) = d.flatten(&Convention::new());
    assert!(matches!(outcome, TransformOutcome::NoOp { .. }));
}

#[test]
fn flatten_with_property_at_intermediate_no_op() {
    let d = doc(vec![KdlNode::builder("a").string_prop("key", "x").child(leaf("b")).build()]);
    let (_, outcome) = d.flatten(&Convention::new());
    assert_eq!(
        outcome,
        TransformOutcome::NoOp { reason: "no pure namespace chain".to_string() }
    );
}

#[test]
fn flatten_with_siblings_no_op() {
    let d = doc(vec![KdlNode::builder("a").child(leaf("b")).child(leaf("c")).build()]);
    let (_, outcome) = d.flatten(&Convention::new());
    assert!(matches!(outcome, TransformOutcome::NoOp { .. }));
}

#[test]
fn nest_dot_collapsed_namespace() {
    let d = doc(vec![leaf("a.b.c")]);
    let (d, outcome) = d.nest(&Convention::new());
    assert_eq!(outcome, TransformOutcome::Applied);
    assert_eq!(d.as_kdl().nodes()[0].name, "a");
    let b = &d.as_kdl().nodes()[0].children().unwrap()[0];
    assert_eq!(b.name(), "b");
    assert_eq!(b.children().unwrap()[0].name(), "c");
}

#[test]
fn nest_leaves_odd_names() {
    for name in [".a.b", "a..b", "plain"] {
        let (_, outcome) = doc(vec![leaf(name)]).nest(&Convention::new());
        assert_eq!(
            outcome,
            TransformOutcome::NoOp { reason: "no dotted namespace node".to_string() },
            "{name}"
        );
    }
}

#[test]
fn flatten_nest_round_trip() {
    let d = doc(vec![KdlNode::builder("a.b.c").string_arg("x").build()]);
    let (nested, _) = d.clone().nest(&Convention::new());
    let (flat, _) = nested.flatten(&Convention::new());
    assert!(same(&flat, &d));
}

#[test]
fn expand_dot_chain_linear() {
    let d = doc(vec![call("call", "a"), call(".call", "b"), call("..call", "c")]);
    let (d, outcome) = d.expand_dot_chain("call", &Convention::new());
    assert_eq!(outcome, TransformOutcome::Applied);
    assert!(d.as_kdl().nodes()[0].children.is_some());
    assert_eq!(d.as_kdl().nodes().len(), 1);
}

#[test]
fn expand_dot_chain_branching() {
    let d = doc(vec![call("call", "a"), call(".call", "b1"), call(".call", "b2")]);
    let (d, _) = d.expand_dot_chain("call", &Convention::new());
    assert_eq!(d.as_kdl().nodes()[0].children.as_ref().expect("children").len(), 2);
}

#[test]
fn expand_dot_chain_three_depth() {
    let d = doc(vec![call("call", "a"), call(".call", "b"), call("..call", "c")]);
    let (d, _) = d.expand_dot_chain("call", &Convention::new());
    let child = &d.as_kdl().nodes()[0].children.as_ref().expect("child")[0];
    assert!(child.children.is_some());
}

#[test]
fn expand_dot_chain_kind_filter_skips_others() {
    let d = doc(vec![call("item", "a"), call(".item", "b")]);
    let (_, outcome) = d.expand_dot_chain("call", &Convention::new());
    assert!(matches!(outcome, TransformOutcome::NoOp { .. }));
}

#[test]
fn expand_dot_chain_depth_jump_no_op() {
    let d = doc(vec![call("call", "a"), call("..call", "b")]);
    let (d, outcome) = d.expand_dot_chain("call", &Convention::new());
    assert_eq!(
        outcome,
        TransformOutcome::NoOp { reason: "depth jump from 1 to 2".to_string() }
    );
    assert_eq!(names(&d), vec!["call", "..call"]);
}

#[test]
fn collapse_dot_chain_linear() {
    let d = doc(vec![KdlNode::builder("call")
        .string_arg("a")
        .child(KdlNode::builder("call").string_arg("b").child(call("call", "c")).build())
        .build()]);
    let (d, outcome) = d.collapse_dot_chain("call", &Convention::new());
    assert_eq!(outcome, TransformOutcome::Applied);
    assert_eq!(names(&d), vec!["call", ".call", "..call"]);
}

#[test]
fn collapse_dot_chain_with_mixed_kind_no_op() {
    let d = doc(vec![KdlNode::builder("call").string_arg("a").child(call("item", "b")).build()]);
    let (d2, outcome) = d.clone().collapse_dot_chain("call", &Convention::new());
    assert_eq!(
        outcome,
        TransformOutcome::NoOp { reason: "mixed child kind under call".to_string() }
    );
    assert!(same(&d2, &d));
}

#[test]
fn expand_collapse_round_trip_linear() {
    let d = doc(vec![call("call", "a"), call(".call", "b"), call("..call", "c")]);
    let (expanded, _) = d.clone().expand_dot_chain("call", &Convention::new());
    let (collapsed, _) = expanded.collapse_dot_chain("call", &Convention::new());
    assert!(same(&collapsed, &d));
}

#[test]
fn expand_collapse_round_trip_branching() {
    let d = doc(vec![call("call", "a"), call(".call", "b1"), call(".call", "b2")]);
    let (expanded, _) = d.clone().expand_dot_chain("call", &Convention::new());
    let (collapsed, _) = expanded.collapse_dot_chain("call", &Convention::new());
    assert!(same(&collapsed, &d));
}

#[test]
fn expand_properties_basic() {
    let d = doc(vec![KdlNode::builder("node").int_prop("a", 1).int_prop("b", 2).build()]);
    let (d, outcome) = d.expand_properties(&Convention::new());
    assert_eq!(outcome, TransformOutcome::Applied);
    assert_eq!(d.as_kdl().nodes()[0].children.as_ref().expect("children").len(), 2);
    assert!(d.as_kdl().nodes()[0].entries.is_empty());
}

#[test]
fn expand_properties_with_type_annotation() {
    let d = doc(vec![KdlNode::builder("node").typed_prop("val", "i32", KdlValue::Null).build()]);
    let (d, _) = d.expand_properties(&Convention::new());
    let child = &d.as_kdl().nodes()[0].children.as_ref().expect("children")[0];
    assert_eq!(child.entries[0].ty(), Some("i32"));
}

#[test]
fn expand_properties_under_marker_no_op() {
    let conv = Convention::new().with_marker(Marker::Prefix(':'));
    let d = doc(vec![KdlNode::builder(":m").child(KdlNode::builder("node").int_prop("a", 1).build()).build()]);
    let (_, outcome) = d.expand_properties(&conv);
    assert!(matches!(outcome, TransformOutcome::NoOp { .. }));
}

#[test]
fn collapse_properties_basic() {
    let d = doc(vec![KdlNode::builder("node")
        .child(KdlNode::builder("a").int_arg(1).build())
        .child(KdlNode::builder("b").int_arg(2).build())
        .build()]);
    let (d, outcome) = d.collapse_properties(&Convention::new());
    assert_eq!(outcome, TransformOutcome::Applied);
    assert_eq!(d.as_kdl().nodes()[0].entries.len(), 2);
    assert!(d.as_kdl().nodes()[0].children.is_none());
}

#[test]
fn collapse_properties_with_multi_arg_no_op() {
    let d = doc(vec![KdlNode::builder("node")
        .child(KdlNode::builder("a").int_arg(1).int_arg(2).build())
        .build()]);
    let (_, outcome) = d.collapse_properties(&Convention::new());
    assert_eq!(
        outcome,
        TransformOutcome::NoOp { reason: "child a has multiple entries".to_string() }
    );
}

#[test]
fn collapse_properties_with_children_no_op() {
    let d = doc(vec![KdlNode::builder("node")
        .child(KdlNode::builder("a").int_arg(1).child(leaf("b")).build())
        .build()]);
    let (_, outcome) = d.collapse_properties(&Convention::new());
    assert!(matches!(outcome, TransformOutcome::NoOp { .. }));
}

#[test]
fn expand_collapse_properties_round_trip() {
    let d = doc(vec![KdlNode::builder("node")
        .int_prop("a", 1)
        .typed_prop("b", "i32", KdlValue::Number(neco::kdl::builder::int_number(2)))
        .build()]);
    let (expanded, _) = d.clone().expand_properties(&Convention::new());
    let (collapsed, _) = expanded.collapse_properties(&Convention::new());
    assert!(same(&collapsed, &d));
}

#[test]
fn expand_type_annotations_kind_marker() {
    let d = doc(vec![KdlNode::builder("value").ty("integer").build()]);
    let (d, _) = d.expand_type_annotations(
        &Marker::Kind("_type".to_owned()),
        &Convention::new().with_marker(Marker::Kind("_type".to_owned())),
    );
    assert_eq!(d.as_kdl().nodes()[0].name, "_type");
    assert_eq!(d.as_kdl().nodes()[0].first_string_arg(), Some("integer"));
}

#[test]
fn expand_type_annotations_prefix_marker() {
    let d = doc(vec![KdlNode::builder("value").ty("integer").build()]);
    let (d, _) = d.expand_type_annotations(
        &Marker::Prefix(':'),
        &Convention::new().with_marker(Marker::Prefix(':')),
    );
    assert_eq!(d.as_kdl().nodes()[0].name, ":integer");
}

#[test]
fn expand_type_annotations_under_existing_marker_no_op() {
    let conv = Convention::new().with_marker(Marker::Prefix(':'));
    let d = doc(vec![KdlNode::builder(":m").child(KdlNode::builder("value").ty("integer").build()).build()]);
    let (_, outcome) = d.expand_type_annotations(&Marker::Prefix(':'), &conv);
    assert!(matches!(outcome, TransformOutcome::NoOp { .. }));
}

#[test]
fn collapse_type_annotations_kind_marker() {
    let d = doc(vec![KdlNode::builder("_type").string_arg("integer").child(leaf("value")).build()]);
    let (d, _) = d.collapse_type_annotations(
        &Marker::Kind("_type".to_owned()),
        &Convention::new().with_marker(Marker::Kind("_type".to_owned())),
    );
    assert_eq!(d.as_kdl().nodes()[0].ty(), Some("integer"));
}

#[test]
fn collapse_type_annotations_prefix_marker() {
    let d = doc(vec![KdlNode::builder(":integer").child(leaf("value")).build()]);
    let (d, _) = d.collapse_type_annotations(
        &Marker::Prefix(':'),
        &Convention::new().with_marker(Marker::Prefix(':')),
    );
    assert_eq!(d.as_kdl().nodes()[0].ty(), Some("integer"));
}

#[test]
fn expand_collapse_type_annotations_round_trip_kind() {
    let conv = Convention::new().with_marker(Marker::Kind("_type".to_owned()));
    let marker = Marker::Kind("_type".to_owned());
    let d = doc(vec![KdlNode::builder("value").ty("integer").build()]);
    let (expanded, _) = d.clone().expand_type_annotations(&marker, &conv);
    let (collapsed, _) = expanded.collapse_type_annotations(&marker, &conv);
    assert!(same(&collapsed, &d));
}

#[test]
fn expand_collapse_type_annotations_round_trip_prefix() {
    let conv = Convention::new().with_marker(Marker::Prefix(':'));
    let marker = Marker::Prefix(':');
    let d = doc(vec![KdlNode::builder("value").ty("integer").build()]);
    let (expanded, _) = d.clone().expand_type_annotations(&marker, &conv);
    let (collapsed, _) = expanded.collapse_type_annotations(&marker, &conv);
    assert!(same(&collapsed, &d));
}

#[test]
fn expand_kind_keyword_prefix_marker() {
    let d = doc(vec![KdlNode::builder("entity").string_arg("alpha").child(leaf("body")).build()]);
    let (d, _) = d.expand_kind_keyword(&Marker::Prefix('@'), &Convention::new());
    let child = &d.as_kdl().nodes()[0].children.as_ref().expect("children")[0];
    assert_eq!(child.name, "@alpha");
}

#[test]
fn expand_kind_keyword_kind_marker() {
    let d = doc(vec![KdlNode::builder("entity").string_arg("alpha").child(leaf("body")).build()]);
    let (d, _) = d.expand_kind_keyword(&Marker::Kind("_id".to_owned()), &Convention::new());
    let child = &d.as_kdl().nodes()[0].children.as_ref().expect("children")[0];
    assert_eq!(child.name, "_id");
}

#[test]
fn expand_kind_keyword_without_identifier_drops_entries() {
    let d = doc(vec![KdlNode::builder("entity").int_arg(1).build()]);
    let (d, outcome) = d.expand_kind_keyword(&Marker::Prefix('@'), &Convention::new());
    assert!(matches!(outcome, TransformOutcome::NoOp { .. }));
    assert!(d.as_kdl().nodes()[0].entries.is_empty());
}

#[test]
fn collapse_kind_keyword_prefix_marker() {
    let d = doc(vec![KdlNode::builder("entity").child(KdlNode::builder("@alpha").child(leaf("body")).build()).build()]);
    let (d, _) = d.collapse_kind_keyword(&Marker::Prefix('@'), &Convention::new());
    assert_eq!(d.as_kdl().nodes()[0].first_string_arg(), Some("alpha"));
}

#[test]
fn collapse_kind_keyword_kind_marker() {
    let d = doc(vec![KdlNode::builder("entity")
        .child(KdlNode::builder("_id").string_arg("alpha").child(leaf("body")).build())
        .build()]);
    let (d, _) = d.collapse_kind_keyword(&Marker::Kind("_id".to_owned()), &Convention::new());
    assert_eq!(d.as_kdl().nodes()[0].first_string_arg(), Some("alpha"));
}

#[test]
fn expand_collapse_kind_keyword_round_trip() {
    let d = doc(vec![KdlNode::builder("entity").string_arg("alpha").child(leaf("body")).build()]);
    let marker = Marker::Prefix('@');
    let (expanded, _) = d.clone().expand_kind_keyword(&marker, &Convention::new());
    let (collapsed, _) = expanded.collapse_kind_keyword(&marker, &Convention::new());
    assert!(same(&collapsed, &d));
}

#[test]
fn reverse_domain_identifier_round_trip() {
    let conv = Convention::new().with_marker(Marker::Prefix(':'));
    let marker = Marker::Prefix(':');
    let d = doc(vec![KdlNode::builder("com.vscodium.codium-insiders").ty("unit").build()]);
    let (expanded, _) = d.clone().expand_type_annotations(&marker, &conv);
    let (nested, _) = expanded.nest(&conv);
    let (flat, _) = nested.flatten(&conv);
    let (collapsed, _) = flat.collapse_type_annotations(&marker, &conv);
    assert!(same(&collapsed, &d));
}

#[test]
fn render_as_applies_each_axis() {
    let conv = Convention::new()
        .with_marker(Marker::Kind("call".to_owned()))
        .with_namespace_form(AxisForm::Expand)
        .with_procedure_form(AxisForm::Expand)
        .with_property_child_form(PropertyChildForm::Expand);
    let d = doc(vec![
        KdlNode::builder("a.b").int_prop("k", 1).build(),
        call("call", "x"),
        call(".call", "y"),
    ]);
    let r = d.render_as(&conv);
    let nodes = r.as_kdl().nodes();
    assert_eq!(nodes.len(), 2);
    assert_eq!(nodes[0].name(), "a");
    let b = &nodes[0].children().unwrap()[0];
    assert_eq!(b.name(), "b");
    assert_eq!(b.children().unwrap()[0].name(), "k");
    assert_eq!(nodes[1].children().unwrap()[0].first_string_arg(), Some("y"));
    let off = d.render_as(&Convention::new());
    assert!(same(&off, &d));
}

#[test]
fn render_as_ignores_forms_that_do_not_apply() {
    let conv = Convention::new()
        .with_namespace_form(AxisForm::ExpandWithMarker(Marker::Prefix(':')))
        .with_type_annotation_form(AxisForm::Expand)
        .with_kind_keyword_form(AxisForm::Collapse)
        .with_procedure_form(AxisForm::CollapseWithMarker(Marker::Prefix(':')));
    let d = doc(vec![KdlNode::builder("a.b").ty("t").string_arg("x").build()]);
    assert!(same(&d.render_as(&conv), &d));
}

#[test]
fn flatten_undoes_nest_on_dotted_names() {
    let original = doc(vec![
        KdlNode::builder("a.b.c")
            .string_arg("x")
            .child(call("d.e", "y"))
            .child(call("f", "z"))
            .build(),
        call("plain", "w"),
        call(".odd", "v"),
    ]);
    let conv = Convention::new();
    let (nested, outcome) = doc(original.as_kdl().nodes().to_vec()).nest(&conv);
    assert_eq!(outcome, TransformOutcome::Applied);
    assert_eq!(names(&nested), vec!["a", "plain", ".odd"]);
    let (flat, _) = nested.flatten(&conv);
    assert!(same(&flat, &original));
}

fn cycle(original: &Document, expand: &Convention, collapse: &Convention) -> Document {
    original.render_as(expand).render_as(collapse).render_as(expand).render_as(collapse)
}

fn text_of(d: &Document) -> String {
    neco::kdl::serialize(d.as_kdl())
}

#[test]
fn roundtrip_axis_1_namespace() {
    let original = doc(vec![call("encoding.base64.encode", "impl")]);
    let expand_conv = Convention::new().with_namespace_form(AxisForm::Expand);
    let collapse_conv = Convention::new().with_namespace_form(AxisForm::Collapse);
    let cycled = cycle(&original, &expand_conv, &collapse_conv);
    assert_eq!(text_of(&cycled), text_of(&original));
}

#[test]
fn roundtrip_axis_2_procedure() {
    let original = doc(vec![KdlNode::builder("chain")
        .child(call("call", "a"))
        .child(call(".call", "b"))
        .build()]);
    let expand_conv = Convention::new()
        .with_marker(Marker::Kind("call".to_owned()))
        .with_procedure_form(AxisForm::Expand);
    let collapse_conv = Convention::new()
        .with_marker(Marker::Kind("call".to_owned()))
        .with_procedure_form(AxisForm::Collapse);
    let cycled = cycle(&original, &expand_conv, &collapse_conv);
    assert_eq!(text_of(&cycled), text_of(&original));
}

#[test]
fn roundtrip_axis_3_property_child() {
    let original = doc(vec![KdlNode::builder("node")
        .string_arg("name")
        .string_prop("value", "something")
        .bool_prop("is", false)
        .int_prop("count", 3)
        .build()]);
    let expand_conv = Convention::new().with_property_child_form(PropertyChildForm::Expand);
    let collapse_conv = Convention::new().with_property_child_form(PropertyChildForm::Collapse);
    let cycled = cycle(&original, &expand_conv, &collapse_conv);
    assert_eq!(text_of(&cycled), text_of(&original));
}

#[test]
fn roundtrip_axis_4_type_annotation() {
    let original = doc(vec![KdlNode::builder("input")
        .child(KdlNode::builder("value").ty("i32").build())
        .build()]);
    let marker = Marker::Prefix(':');
    let expand_conv = Convention::new()
        .with_marker(marker.clone())
        .with_type_annotation_form(AxisForm::ExpandWithMarker(marker.clone()));
    let collapse_conv = Convention::new()
        .with_marker(marker.clone())
        .with_type_annotation_form(AxisForm::CollapseWithMarker(marker.clone()));
    let cycled = cycle(&original, &expand_conv, &collapse_conv);
    assert_eq!(text_of(&cycled), text_of(&original));
}

#[test]
fn roundtrip_axis_5_kind_keyword() {
    let procedure = KdlNode { ty: None, name: "procedure".to_string(), entries: vec![], children: Some(vec![]) };
    let original = doc(vec![KdlNode::builder("lex").string_arg("foo").child(procedure).build()]);
    let marker = Marker::Prefix('@');
    let expand_conv = Convention::new()
        .with_marker(marker.clone())
        .with_kind_keyword_form(AxisForm::ExpandWithMarker(marker.clone()));
    let collapse_conv = Convention::new()
        .with_marker(marker.clone())
        .with_kind_keyword_form(AxisForm::CollapseWithMarker(marker.clone()));
    let cycled = cycle(&original, &expand_conv, &collapse_conv);
    assert_eq!(text_of(&cycled), text_of(&original));
}

#[test]
fn render_as_public_api_present() {
    let d = doc(vec![call("node", "x")]);
    let _ = d.render_as(&Convention::default());
}
