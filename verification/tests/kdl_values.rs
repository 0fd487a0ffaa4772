use neco::kdl::{KdlDocument, KdlEntry, KdlNode, KdlNumber, KdlValue};

fn make_number(raw: &str, i: Option<i64>) -> KdlNumber {
    KdlNumber {
        raw: raw.to_string(),
        as_i64: i,
    }
}

fn arg(value: KdlValue) -> KdlEntry {
    KdlEntry::Argument { ty: None, value }
}

fn prop(key: &str, value: KdlValue) -> KdlEntry {
    KdlEntry::Property {
        key: key.to_string(),
        ty: None,
        value,
    }
}

fn typed_arg(ty: &str, value: KdlValue) -> KdlEntry {
    KdlEntry::Argument {
        ty: Some(ty.to_string()),
        value,
    }
}

fn typed_prop(key: &str, ty: &str, value: KdlValue) -> KdlEntry {
    KdlEntry::Property {
        key: key.to_string(),
        ty: Some(ty.to_string()),
        value,
    }
}

fn node(name: &str, entries: Vec<KdlEntry>, children: Option<Vec<KdlNode>>) -> KdlNode {
    KdlNode {
        ty: None,
        name: name.to_string(),
        entries,
        children,
    }
}

#[test]
fn as_str_returns_some_for_string() {
    assert_eq!(KdlValue::String("hello".to_string()).as_str(), Some("hello"));
}

#[test]
fn as_str_returns_none_for_number() {
    assert_eq!(KdlValue::Number(make_number("42", Some(42))).as_str(), None);
}

#[test]
fn as_bool_returns_some_for_bool() {
    assert_eq!(KdlValue::Bool(true).as_bool(), Some(true));
    assert_eq!(KdlValue::Bool(false).as_bool(), Some(false));
}

#[test]
fn as_bool_returns_none_for_string() {
    assert_eq!(KdlValue::String("true".to_string()).as_bool(), None);
}

#[test]
fn as_i64_returns_some_for_integer() {
    assert_eq!(KdlValue::Number(make_number("42", Some(42))).as_i64(), Some(42));
}

#[test]
fn as_i64_returns_none_for_float_only() {
    assert_eq!(KdlValue::Number(make_number("2.5", None)).as_i64(), None);
}

#[test]
fn numbers_compare_by_text() {
    assert_eq!(make_number("1", Some(1)), make_number("1", None));
    assert_ne!(make_number("1", Some(1)), make_number("0x1", Some(1)));
    assert_eq!(make_number("0x1", Some(1)).raw(), "0x1");
    assert_eq!(make_number("0x1", Some(1)).as_i64(), Some(1));
}

#[test]
fn entry_value_for_argument() {
    let entry = arg(KdlValue::String("arg".to_string()));
    assert_eq!(entry.value(), &KdlValue::String("arg".to_string()));
}

#[test]
fn entry_value_for_property() {
    let entry = prop("key", KdlValue::Bool(true));
    assert_eq!(entry.value(), &KdlValue::Bool(true));
}

#[test]
fn node_get_returns_some_for_existing_key() {
    let n = node(
        "test",
        vec![
            arg(KdlValue::String("positional".to_string())),
            prop("color", KdlValue::String("red".to_string())),
        ],
        None,
    );
    assert_eq!(n.get("color"), Some(&KdlValue::String("red".to_string())));
}

#[test]
fn node_get_returns_none_for_missing_key() {
    let n = node("test", vec![arg(KdlValue::String("positional".to_string()))], None);
    assert_eq!(n.get("missing"), None);
}

#[test]
fn first_arg_skips_property() {
    let n = node(
        "n",
        vec![
            prop("k", KdlValue::Bool(true)),
            arg(KdlValue::String("v".to_string())),
        ],
        None,
    );
    assert_eq!(n.first_arg(), Some(&KdlValue::String("v".to_string())));
}

#[test]
fn first_arg_returns_none_when_no_args() {
    let n = node("n", vec![prop("k", KdlValue::Bool(true))], None);
    assert_eq!(n.first_arg(), None);
}

#[test]
fn first_string_arg_for_string() {
    let n = node("n", vec![arg(KdlValue::String("hi".to_string()))], None);
    assert_eq!(n.first_string_arg(), Some("hi"));
}

#[test]
fn first_string_arg_for_non_string() {
    let n = node("n", vec![arg(KdlValue::Number(make_number("1", Some(1))))], None);
    assert_eq!(n.first_string_arg(), None);
}

#[test]
fn find_child_returns_first_match() {
    let parent = node(
        "p",
        vec![],
        Some(vec![
            node("a", vec![arg(KdlValue::String("first".to_string()))], None),
            node("a", vec![arg(KdlValue::String("second".to_string()))], None),
        ]),
    );
    assert_eq!(
        parent.find_child("a").map(|c| c.first_string_arg()),
        Some(Some("first")),
    );
}

#[test]
fn find_child_returns_none_when_no_children() {
    let n = node("n", vec![], None);
    assert!(n.find_child("a").is_none());
}

#[test]
fn find_children_iterates_all_matches() {
    let parent = node(
        "p",
        vec![],
        Some(vec![
            node("a", vec![arg(KdlValue::String("1".to_string()))], None),
            node("b", vec![], None),
            node("a", vec![arg(KdlValue::String("2".to_string()))], None),
        ]),
    );
    let collected: Vec<String> = parent.find_children("a").iter().map(|c| c.name.clone()).collect();
    assert_eq!(collected, vec!["a".to_string(), "a".to_string()]);
}

#[test]
fn find_children_empty_for_no_match() {
    let parent = node("p", vec![], Some(vec![node("a", vec![], None)]));
    assert_eq!(parent.find_children("z").len(), 0);
}

#[test]
fn string_prop_for_string_value() {
    let n = node("n", vec![prop("k", KdlValue::String("hello".to_string()))], None);
    assert_eq!(n.string_prop("k"), Some("hello"));
}

#[test]
fn string_prop_for_wrong_type() {
    let n = node("n", vec![prop("k", KdlValue::Number(make_number("1", Some(1))))], None);
    assert_eq!(n.string_prop("k"), None);
}

#[test]
fn string_prop_missing_key() {
    let n = node("n", vec![prop("k", KdlValue::Bool(true))], None);
    assert_eq!(n.string_prop("absent"), None);
}

#[test]
fn bool_prop_for_bool_value() {
    let n = node("n", vec![prop("flag", KdlValue::Bool(true))], None);
    assert_eq!(n.bool_prop("flag"), Some(true));
}

#[test]
fn bool_prop_for_wrong_type() {
    let n = node("n", vec![prop("flag", KdlValue::String("true".to_string()))], None);
    assert_eq!(n.bool_prop("flag"), None);
}

#[test]
fn bool_prop_missing_key() {
    let n = node("n", vec![], None);
    assert_eq!(n.bool_prop("absent"), None);
}

#[test]
fn int_prop_for_int_value() {
    let n = node("n", vec![prop("count", KdlValue::Number(make_number("42", Some(42))))], None);
    assert_eq!(n.int_prop("count"), Some(42));
}

#[test]
fn int_prop_for_float_only() {
    let n = node("n", vec![prop("x", KdlValue::Number(make_number("2.5", None)))], None);
    assert_eq!(n.int_prop("x"), None);
}

#[test]
fn int_prop_missing_key() {
    let n = node("n", vec![], None);
    assert_eq!(n.int_prop("absent"), None);
}

#[test]
fn string_child_values_collects_string_args() {
    let parent = node(
        "p",
        vec![],
        Some(vec![
            node("item", vec![arg(KdlValue::String("a".to_string()))], None),
            node("item", vec![arg(KdlValue::String("b".to_string()))], None),
            node("other", vec![arg(KdlValue::String("z".to_string()))], None),
        ]),
    );
    assert_eq!(parent.string_child_values("item"), vec!["a", "b"]);
}

#[test]
fn string_child_values_skips_non_string() {
    let parent = node(
        "p",
        vec![],
        Some(vec![
            node("item", vec![arg(KdlValue::String("a".to_string()))], None),
            node("item", vec![arg(KdlValue::Number(make_number("1", Some(1))))], None),
        ]),
    );
    assert_eq!(parent.string_child_values("item"), vec!["a"]);
}

#[test]
fn string_args_and_arg_values_keep_order() {
    let n = node(
        "n",
        vec![
            arg(KdlValue::String("a".to_string())),
            prop("k", KdlValue::String("p".to_string())),
            arg(KdlValue::Null),
            arg(KdlValue::String("b".to_string())),
        ],
        None,
    );
    assert_eq!(n.string_args(), vec!["a", "b"]);
    assert_eq!(
        n.arg_values(),
        vec![
            &KdlValue::String("a".to_string()),
            &KdlValue::Null,
            &KdlValue::String("b".to_string())
        ]
    );
}

#[test]
fn entry_ty_for_typed_argument() {
    let e = typed_arg("u32", KdlValue::Number(make_number("1", Some(1))));
    assert_eq!(e.ty(), Some("u32"));
}

#[test]
fn entry_ty_for_untyped_argument() {
    assert_eq!(arg(KdlValue::Bool(true)).ty(), None);
}

#[test]
fn entry_ty_for_typed_property() {
    let e = typed_prop("k", "i64", KdlValue::Number(make_number("7", Some(7))));
    assert_eq!(e.ty(), Some("i64"));
}

#[test]
fn entry_ty_for_untyped_property() {
    assert_eq!(prop("k", KdlValue::Bool(false)).ty(), None);
}

#[test]
fn node_builder_builds_node() {
    let n = KdlNode::builder("greet").string_arg("hello").build();
    assert_eq!(n.name(), "greet");
    assert_eq!(n.first_string_arg(), Some("hello"));
}

#[test]
fn document_builder_adds_nodes() {
    let doc = KdlDocument::builder()
        .node(KdlNode::builder("alpha").build())
        .node(KdlNode::builder("beta").build())
        .build();
    assert_eq!(doc.nodes().len(), 2);
}

#[test]
fn node_builder_all_entry_kinds() {
    let child = KdlNode::builder("c").build();
    let n = KdlNode::builder("n")
        .ty("t")
        .bool_arg(true)
        .int_arg(-42)
        .typed_arg("u8", KdlValue::Null)
        .string_prop("s", "v")
        .bool_prop("b", false)
        .int_prop("i", 7)
        .typed_prop("tp", "x", KdlValue::Null)
        .child(child.clone())
        .children(vec![KdlNode::builder("d").build()])
        .build();
    assert_eq!(n.ty(), Some("t"));
    assert_eq!(n.entries().len(), 7);
    assert_eq!(n.entries()[1], arg(KdlValue::Number(make_number("-42", Some(-42)))));
    assert_eq!(n.int_prop("i"), Some(7));
    assert_eq!(n.string_prop("s"), Some("v"));
    assert_eq!(n.bool_prop("b"), Some(false));
    assert_eq!(n.children().map(|c| c.len()), Some(2));
    assert_eq!(n.find_child("d").map(|c| c.name()), Some("d"));
    let doc = KdlDocument::builder().nodes(vec![n.clone(), child]).build();
    assert_eq!(doc.clone(), doc);
    assert_eq!(doc.nodes()[0], n);
}
