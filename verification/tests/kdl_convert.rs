use neco::kdl::convert::{kdl_document_to_value, value_to_kdl_document, Value};
use neco::kdl::{KdlDocument, KdlEntry, KdlNode, KdlNumber, KdlValue};

fn roundtrip(v: &Value) -> Value {
    let doc = value_to_kdl_document(v).expect("encode failed");
    kdl_document_to_value(&doc).expect("decode failed")
}

#[test]
fn roundtrip_single_string_node() {
    let input = Value::Object(vec![("text".to_string(), Value::String("hello".to_string()))]);
    assert_eq!(roundtrip(&input), input);
}

#[test]
fn roundtrip_array_node() {
    let input = Value::Object(vec![(
        "langs".to_string(),
        Value::Array(vec![
            Value::String("en".to_string()),
            Value::String("ja".to_string()),
        ]),
    )]);
    assert_eq!(roundtrip(&input), input);
}

#[test]
fn roundtrip_nested_object() {
    let root_ref = Value::Object(vec![
        ("cid".to_string(), Value::String("bafyCID".to_string())),
        ("uri".to_string(), Value::String("at://x".to_string())),
    ]);
    let input = Value::Object(vec![(
        "reply".to_string(),
        Value::Object(vec![("root".to_string(), root_ref)]),
    )]);
    assert_eq!(roundtrip(&input), input);
}

#[test]
fn roundtrip_integer() {
    let input = Value::Object(vec![("count".to_string(), Value::Integer(42))]);
    let output = roundtrip(&input);
    assert_eq!(output, input);
    match &output {
        Value::Object(fields) => assert_eq!(fields[0].1, Value::Integer(42)),
        _ => panic!("expected Object"),
    }
}

#[test]
fn roundtrip_float() {
    let input = Value::Object(vec![("ratio".to_string(), Value::Float("2.5".to_string()))]);
    assert_eq!(roundtrip(&input), input);
}

#[test]
fn integer_and_float_are_distinct() {
    let int_out = roundtrip(&Value::Object(vec![("n".to_string(), Value::Integer(1))]));
    let flt_out = roundtrip(&Value::Object(vec![("n".to_string(), Value::Float("1.0".to_string()))]));
    assert_ne!(int_out, flt_out);
    match &int_out {
        Value::Object(f) => assert!(matches!(f[0].1, Value::Integer(_))),
        _ => panic!(),
    }
    match &flt_out {
        Value::Object(f) => assert!(matches!(f[0].1, Value::Float(_))),
        _ => panic!(),
    }
}

#[test]
fn roundtrip_null() {
    let input = Value::Object(vec![("deleted".to_string(), Value::Null)]);
    assert_eq!(roundtrip(&input), input);
}

#[test]
fn roundtrip_bool() {
    let input = Value::Object(vec![
        ("active".to_string(), Value::Bool(true)),
        ("deleted".to_string(), Value::Bool(false)),
    ]);
    assert_eq!(roundtrip(&input), input);
}

#[test]
fn roundtrip_negative_integer() {
    let input = Value::Object(vec![("offset".to_string(), Value::Integer(-7))]);
    assert_eq!(roundtrip(&input), input);
    let doc = value_to_kdl_document(&input).unwrap();
    assert_eq!(doc.nodes[0].entries[0].value(), &KdlValue::Number(KdlNumber { raw: "-7".to_string(), as_i64: Some(-7) }));
}

#[test]
fn top_level_non_object_is_error() {
    assert!(value_to_kdl_document(&Value::String("oops".to_string())).is_err());
}

#[test]
fn nested_array_in_array_is_error() {
    let input = Value::Object(vec![(
        "a".to_string(),
        Value::Array(vec![Value::Array(vec![]), Value::Null]),
    )]);
    let err = value_to_kdl_document(&input).unwrap_err();
    assert_eq!((err.line(), err.col()), (1, 1));
}

#[test]
fn empty_node_decoded_as_null() {
    let doc = KdlDocument {
        nodes: vec![KdlNode { ty: None, name: "empty".to_string(), entries: vec![], children: None }],
    };
    let val = kdl_document_to_value(&doc).unwrap();
    assert_eq!(val, Value::Object(vec![("empty".to_string(), Value::Null)]));
}

#[test]
fn node_with_arguments_and_children_is_error() {
    let doc = KdlDocument {
        nodes: vec![KdlNode::builder("n").int_arg(1).child(KdlNode::builder("c").build()).build()],
    };
    assert!(kdl_document_to_value(&doc).is_err());
}

#[test]
fn prefixed_float_without_integer_value_is_error() {
    let doc = KdlDocument {
        nodes: vec![KdlNode {
            ty: None,
            name: "n".to_string(),
            entries: vec![KdlEntry::Argument {
                ty: Some("f64".to_string()),
                value: KdlValue::Number(KdlNumber { raw: "0xffffffffffffffffff".to_string(), as_i64: None }),
            }],
            children: None,
        }],
    };
    assert!(kdl_document_to_value(&doc).is_err());
}
