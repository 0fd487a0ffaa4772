use neco::kdl::number_form::normalize_number;
use neco::kdl::quote::can_be_bare_identifier;
use neco::kdl::{normalize, serialize, KdlDocument, KdlEntry, KdlNode, KdlNumber, KdlValue};

fn make_doc(nodes: Vec<KdlNode>) -> KdlDocument {
    KdlDocument { nodes }
}

fn make_node(name: &str) -> KdlNode {
    KdlNode {
        ty: None,
        name: name.to_string(),
        entries: Vec::new(),
        children: None,
    }
}

fn number(raw: &str, as_i64: Option<i64>) -> KdlNumber {
    KdlNumber {
        raw: raw.to_string(),
        as_i64,
    }
}

#[test]
fn empty_document() {
    let doc = make_doc(vec![]);
    assert_eq!(normalize(&doc), "\n");
}

#[test]
fn basic_node() {
    let mut node = make_node("node");
    node.entries.push(KdlEntry::Argument {
        ty: None,
        value: KdlValue::String("hello".to_string()),
    });
    let doc = make_doc(vec![node]);
    assert_eq!(normalize(&doc), "node hello\n");
}

#[test]
fn property_sort_and_dedup() {
    let mut node = make_node("node");
    node.entries.push(KdlEntry::Property {
        key: "b".to_string(),
        ty: None,
        value: KdlValue::String("1".to_string()),
    });
    node.entries.push(KdlEntry::Property {
        key: "a".to_string(),
        ty: None,
        value: KdlValue::String("2".to_string()),
    });
    node.entries.push(KdlEntry::Property {
        key: "b".to_string(),
        ty: None,
        value: KdlValue::String("3".to_string()),
    });
    let doc = make_doc(vec![node]);
    assert_eq!(normalize(&doc), "node a=\"2\" b=\"3\"\n");
}

#[test]
fn number_normalization() {
    assert_eq!(normalize_number(&number("0xff", Some(255))), "255");
    assert_eq!(normalize_number(&number("0b1010", Some(10))), "10");
    assert_eq!(normalize_number(&number("1.0e+10", None)), "1.0E+10");
    assert_eq!(normalize_number(&number("1.23E+1000", None)), "1.23E+1000");
    assert_eq!(normalize_number(&number("#inf", None)), "#inf");
    assert_eq!(normalize_number(&number("+10", Some(10))), "10");
    assert_eq!(normalize_number(&number("-0", Some(0))), "0");
}

#[test]
fn number_normalization_more_forms() {
    assert_eq!(normalize_number(&number("-0o17", Some(-15))), "-15");
    assert_eq!(normalize_number(&number("-0x0", Some(0))), "0");
    assert_eq!(normalize_number(&number("0x", None)), "0");
    assert_eq!(normalize_number(&number("0x+ff", None)), "255");
    assert_eq!(normalize_number(&number("1_000", Some(1000))), "1000");
    assert_eq!(normalize_number(&number("007.50", None)), "7.50");
    assert_eq!(normalize_number(&number("-00.5e-007", None)), "-0.5E-7");
    assert_eq!(normalize_number(&number("12e3", None)), "12E+3");
    assert_eq!(normalize_number(&number("-0012", Some(-12))), "-12");
}

#[test]
fn type_annotation() {
    let mut node = make_node("node");
    node.ty = Some("mytype".to_string());
    node.entries.push(KdlEntry::Argument {
        ty: Some("u8".to_string()),
        value: KdlValue::Number(number("42", Some(42))),
    });
    let doc = make_doc(vec![node]);
    assert_eq!(normalize(&doc), "(mytype)node (u8)42\n");
}

#[test]
fn empty_children_omitted() {
    let mut node = make_node("node");
    node.children = Some(vec![]);
    let doc = make_doc(vec![node]);
    assert_eq!(normalize(&doc), "node\n");
}

#[test]
fn nested_children() {
    let inner = make_node("child");
    let mut node = make_node("parent");
    node.children = Some(vec![inner]);
    let doc = make_doc(vec![node]);
    assert_eq!(normalize(&doc), "parent {\n    child\n}\n");
}

#[test]
fn identifier_judgment() {
    assert!(can_be_bare_identifier("foo"));
    assert!(can_be_bare_identifier("foo-bar"));
    assert!(can_be_bare_identifier("+"));
    assert!(can_be_bare_identifier("-"));
    assert!(can_be_bare_identifier(".md"));

    assert!(!can_be_bare_identifier(""));
    assert!(!can_be_bare_identifier("true"));
    assert!(!can_be_bare_identifier("false"));
    assert!(!can_be_bare_identifier("null"));
    assert!(!can_be_bare_identifier("inf"));
    assert!(!can_be_bare_identifier("-inf"));
    assert!(!can_be_bare_identifier("nan"));
    assert!(!can_be_bare_identifier("0node"));
    assert!(!can_be_bare_identifier("hello world"));
}

#[test]
fn identifier_judgment_number_like() {
    assert!(!can_be_bare_identifier("+1"));
    assert!(!can_be_bare_identifier("-.5"));
    assert!(!can_be_bare_identifier(".5"));
    assert!(can_be_bare_identifier("-.x"));
    assert!(can_be_bare_identifier("+."));
}

#[test]
fn big_hex_conversion() {
    assert_eq!(
        normalize_number(&number("0xABCDEF0123456789abcdef", None)),
        "207698809136909011942886895"
    );
}

#[test]
fn big_hex_beyond_u128() {
    // 2^128 needs the digit-by-digit conversion
    assert_eq!(
        normalize_number(&number("0x1_0000_0000_0000_0000_0000_0000_0000_0000", None)),
        "340282366920938463463374607431768211456"
    );
    assert_eq!(
        normalize_number(&number("-0b1_00000000_00000000_00000000_00000000_00000000_00000000_00000000_00000000_00000000_00000000_00000000_00000000_00000000_00000000_00000000_00000001", None)),
        "-340282366920938463463374607431768211457"
    );
}

#[test]
fn keywords_and_null() {
    let mut node = make_node("node");
    node.entries.push(KdlEntry::Argument {
        ty: None,
        value: KdlValue::Bool(true),
    });
    node.entries.push(KdlEntry::Argument {
        ty: None,
        value: KdlValue::Bool(false),
    });
    node.entries.push(KdlEntry::Argument {
        ty: None,
        value: KdlValue::Null,
    });
    let doc = make_doc(vec![node]);
    assert_eq!(normalize(&doc), "node #true #false #null\n");
}

#[test]
fn normalize_quotes_and_escapes() {
    let mut node = make_node("my node");
    node.entries.push(KdlEntry::Argument {
        ty: None,
        value: KdlValue::String("a\"b\\c\n\u{2028}\u{FEFF}".to_string()),
    });
    node.entries.push(KdlEntry::Property {
        key: "k".to_string(),
        ty: Some("t".to_string()),
        value: KdlValue::Number(number("0o10", Some(8))),
    });
    let doc = make_doc(vec![node]);
    assert_eq!(
        normalize(&doc),
        "\"my node\" \"a\\\"b\\\\c\\n\\u{2028}\\u{FEFF}\" k=(t)8\n"
    );
}

#[test]
fn serialize_keeps_order_and_raw_numbers() {
    let mut child = make_node("leaf");
    child.entries.push(KdlEntry::Argument {
        ty: Some("u8".to_string()),
        value: KdlValue::Number(number("0x1_0", Some(16))),
    });
    let mut node = make_node("root");
    node.entries.push(KdlEntry::Property {
        key: "b".to_string(),
        ty: None,
        value: KdlValue::String("x".to_string()),
    });
    node.entries.push(KdlEntry::Property {
        key: "a".to_string(),
        ty: None,
        value: KdlValue::Null,
    });
    node.children = Some(vec![child]);
    let doc = make_doc(vec![node, make_node("tail")]);
    assert_eq!(
        serialize(&doc),
        "root b=\"x\" a=#null {\n    leaf (u8)0x1_0\n}\ntail\n"
    );
    assert_eq!(doc.to_kdl_string(), serialize(&doc));
    assert_eq!(make_doc(vec![]).to_kdl_string(), "");
}

#[test]
fn entry_and_value_text() {
    let e = KdlEntry::Property {
        key: "true".to_string(),
        ty: None,
        value: KdlValue::Bool(true),
    };
    assert_eq!(e.to_kdl_string(), "\"true\"=#true");
    assert_eq!(KdlValue::String("v".to_string()).to_kdl_string(), "\"v\"");
    assert_eq!(make_node("n").to_kdl_string(), "n\n");
}
