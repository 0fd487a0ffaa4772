use neco::ast::{StructuredField, StructuredNumber, StructuredValue};
use neco::json::structured::{parse, value_to_structured, JsonDocument, JsonNode};
use neco::json::JsonValue;

const SAMPLE: &[u8] = br#"{"name":"neco","enabled":true,"items":["one","two"]}"#;

#[test]
fn lib_parse_document() {
    assert!(parse(SAMPLE).is_ok());
}

#[test]
fn document_nodes_read_object_fields() {
    let doc = parse(SAMPLE).expect("parse");
    assert_eq!(doc.nodes().len(), 3);
}

#[test]
fn node_kind_uses_field_key() {
    let doc = parse(SAMPLE).expect("parse");
    assert_eq!(doc.nodes()[0].kind(), "name");
}

#[test]
fn node_identifier_uses_field_key() {
    let doc = parse(SAMPLE).expect("parse");
    assert_eq!(doc.nodes()[0].identifier(), Some("name"));
}

#[test]
fn object_attribute_reads_string() {
    let value = JsonValue::Object(vec![("name".into(), JsonValue::String("neco".into()))]);
    let node = JsonNode::from_value(&value);
    assert_eq!(node.attribute_str("name").as_deref(), Some("neco"));
}

#[test]
fn object_attribute_reads_bool() {
    let value = JsonValue::Object(vec![("enabled".into(), JsonValue::Bool(true))]);
    let node = JsonNode::from_value(&value);
    assert_eq!(node.attribute_bool("enabled"), Some(true));
}

#[test]
fn missing_attribute_is_none() {
    let value = JsonValue::Object(Vec::new());
    let node = JsonNode::from_value(&value);
    assert!(node.attribute("missing").is_none());
}

#[test]
fn array_children_are_items() {
    let value = JsonValue::Array(vec![JsonValue::String("one".into())]);
    let node = JsonNode::from_value(&value);
    assert_eq!(node.children()[0].kind(), "item");
}

#[test]
fn value_mapping_preserves_key() {
    let value = JsonValue::Object(vec![("name".into(), JsonValue::String("neco".into()))]);
    let structured = value_to_structured(&value);
    assert_eq!(structured.as_mapping().expect("mapping")[0].key, "name");
}

#[test]
fn scalar_value_preserves_string() {
    let value = JsonValue::String("neco".into());
    let structured = value_to_structured(&value);
    assert_eq!(structured.as_str(), Some("neco"));
}

#[test]
fn document_from_value_keeps_root_scalar() {
    let doc = JsonDocument::from_value(JsonValue::String("neco".into()));
    assert_eq!(
        doc.nodes()[0].value(),
        StructuredValue::String("neco".into())
    );
    assert_eq!(doc.nodes()[0].kind(), "root");
    assert_eq!(doc.nodes()[0].identifier(), None);
}

#[test]
fn parse_reports_errors_of_the_value_parser() {
    assert!(parse(b"{").is_err());
    assert!(parse(b"[1,]").is_err());
}

#[test]
fn numbers_keep_their_text() {
    let doc = parse(b"{\"n\": -1.5e3}").expect("parse");
    assert_eq!(
        doc.nodes()[0].value(),
        StructuredValue::Number(StructuredNumber::from_parts("-1.5e3".to_string()))
    );
    assert_eq!(doc.as_value().get("n"), Some(&JsonValue::Number("-1.5e3".to_string())));
}

#[test]
fn object_children_keep_keys_and_nested_values_convert() {
    let value = JsonValue::Object(vec![
        ("a".into(), JsonValue::Array(vec![JsonValue::Null, JsonValue::Bool(false)])),
        ("b".into(), JsonValue::Object(vec![("c".into(), JsonValue::Number("1".into()))])),
    ]);
    let node = JsonNode::from_value(&value);
    let children = node.children();
    assert_eq!(children.len(), 2);
    assert_eq!(children[1].kind(), "b");
    assert_eq!(node.type_annotation(), None);
    assert_eq!(
        node.attribute("a"),
        Some(StructuredValue::Sequence(vec![StructuredValue::Null, StructuredValue::Bool(false)]))
    );
    assert_eq!(
        node.attribute("b"),
        Some(StructuredValue::Mapping(vec![StructuredField {
            key: "c".to_string(),
            value: StructuredValue::Number(StructuredNumber { raw: "1".to_string() }),
        }]))
    );
    assert!(JsonNode::from_value(&JsonValue::Null).children().is_empty());
}

#[test]
fn string_value_exposes_str() {
    let value = StructuredValue::String("neco".to_string());
    assert_eq!(value.as_str(), Some("neco"));
}

#[test]
fn bool_value_exposes_bool() {
    let value = StructuredValue::Bool(true);
    assert_eq!(value.as_bool(), Some(true));
}

#[test]
fn sequence_value_exposes_slice() {
    let value = StructuredValue::Sequence(vec![StructuredValue::Null]);
    assert_eq!(value.as_sequence().expect("sequence").len(), 1);
}

#[test]
fn mapping_value_exposes_fields() {
    let value = StructuredValue::Mapping(vec![StructuredField {
        key: "name".to_string(),
        value: StructuredValue::String("neco".to_string()),
    }]);
    assert_eq!(value.as_mapping().expect("mapping")[0].key, "name");
}

#[test]
fn structured_document_trait_reads_json() {
    let doc = neco::json::structured::parse(br#"{"name":"neco","tags":["a"]}"#).unwrap();
    let nodes = neco::ast::StructuredDocument::nodes(&doc);
    assert_eq!(nodes.len(), 2);
    assert_eq!(neco::ast::StructuredNode::kind(&nodes[0]), "name");
    assert_eq!(neco::ast::StructuredNode::children(&nodes[1]).len(), 1);
    assert_eq!(neco::ast::StructuredNode::type_annotation(&nodes[0]), None);
}
