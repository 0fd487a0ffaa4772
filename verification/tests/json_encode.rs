use neco::json::{encode, parse, EncodeError, JsonValue, ParseErrorKind};

fn num(t: &str) -> JsonValue {
    JsonValue::Number(t.to_string())
}

#[test]
fn encodes_basic_variants() {
    assert_eq!(encode(&JsonValue::Null).unwrap(), b"null");
    assert_eq!(encode(&JsonValue::Bool(true)).unwrap(), b"true");
    assert_eq!(encode(&JsonValue::Bool(false)).unwrap(), b"false");
    assert_eq!(encode(&num("42.5")).unwrap(), b"42.5");
    assert_eq!(encode(&JsonValue::String("neco".into())).unwrap(), b"\"neco\"");
    assert_eq!(encode(&JsonValue::Array(vec![])).unwrap(), b"[]");
    assert_eq!(encode(&JsonValue::Object(vec![])).unwrap(), b"{}");
}

#[test]
fn rejects_non_finite_numbers() {
    assert_eq!(encode(&num("NaN")), Err(EncodeError::NonFiniteNumber));
    assert_eq!(encode(&num("inf")), Err(EncodeError::NonFiniteNumber));
    assert_eq!(encode(&num("-inf")), Err(EncodeError::NonFiniteNumber));
    assert_eq!(
        encode(&JsonValue::Array(vec![JsonValue::Null, num("NaN")])),
        Err(EncodeError::NonFiniteNumber)
    );
}

#[test]
fn escapes_strings() {
    let value = JsonValue::String("quote:\" slash:\\\n\r\t".into());
    assert_eq!(encode(&value).unwrap(), br#""quote:\" slash:\\\n\r\t""#);
    let control = JsonValue::String("\u{0000}\u{0008}\u{000C}\u{001f}".into());
    assert_eq!(encode(&control).unwrap(), br#""\u0000\b\f\u001F""#);
}

#[test]
fn escapes_null_character_in_string() {
    let value = JsonValue::String("a\u{0000}b".into());
    assert_eq!(encode(&value).unwrap(), br#""a\u0000b""#);
}

#[test]
fn encodes_nested_structures() {
    let value = JsonValue::Object(vec![
        ("name".into(), JsonValue::String("neco".into())),
        (
            "items".into(),
            JsonValue::Array(vec![
                JsonValue::Null,
                JsonValue::Bool(true),
                JsonValue::Object(vec![("x".into(), num("1"))]),
            ]),
        ),
    ]);
    assert_eq!(encode(&value).unwrap(), br#"{"name":"neco","items":[null,true,{"x":1}]}"#);
}

#[test]
fn encode_parse_roundtrip_for_finite_values() {
    let value = JsonValue::Object(vec![
        ("null".into(), JsonValue::Null),
        ("bool".into(), JsonValue::Bool(true)),
        ("int".into(), num("7")),
        ("float".into(), num("-3.25")),
        ("text".into(), JsonValue::String("ねこ\njson".into())),
        (
            "array".into(),
            JsonValue::Array(vec![num("0.5"), JsonValue::String("\"quoted\"".into())]),
        ),
        (
            "object".into(),
            JsonValue::Object(vec![("nested".into(), JsonValue::Bool(false))]),
        ),
    ]);
    let encoded = encode(&value).unwrap();
    let decoded = parse(&encoded).expect("encoded bytes should parse");
    assert_eq!(decoded, value);
}

#[test]
fn acceptance_1_and_2_crate_build_contract_is_visible_from_public_api() {
    let value = parse(br#"{"ok":true}"#).expect("public parse should work");
    assert_eq!(value.required_bool("ok"), Ok(true));
    assert_eq!(encode(&value).expect("public encode should work"), br#"{"ok":true}"#);
}

#[test]
fn acceptance_3_and_7_parse_complex_structure_and_read_with_accessors() {
    let payload = br#"{
        "repo":"did:plc:alice",
        "active":true,
        "score":42.5,
        "profile":{"handle":"alice.test","labels":["dev",null,"cat"]},
        "posts":[
            {"id":"p1","counts":{"likes":3,"replies":0}},
            {"id":"p2","counts":{"likes":5,"replies":1}}
        ]
    }"#;
    let value = parse(payload).expect("complex payload should parse");
    assert_eq!(value.required_str("repo"), Ok("did:plc:alice"));
    assert_eq!(value.required_bool("active"), Ok(true));
    assert_eq!(value.required_number("score"), Ok("42.5"));
    let profile = value.get("profile").expect("profile should exist");
    assert_eq!(profile.required_str("handle"), Ok("alice.test"));
    let labels = profile.required_array("labels").expect("labels should be array");
    assert_eq!(labels.len(), 3);
    assert_eq!(labels[0].as_str(), Some("dev"));
    assert!(labels[1].is_null());
    assert_eq!(labels[2].as_str(), Some("cat"));
    let posts = value.required_array("posts").expect("posts should be array");
    assert_eq!(posts.len(), 2);
    let first = JsonValue::Object(posts[0].as_object().expect("post should be object").to_vec());
    assert_eq!(first.required_str("id"), Ok("p1"));
    let counts = first.get("counts").expect("counts should exist");
    assert_eq!(counts.required_number("likes"), Ok("3"));
    assert_eq!(counts.required_number("replies"), Ok("0"));
}

#[test]
fn acceptance_4_unicode_surrogate_pair_roundtrips_through_public_api() {
    let value = parse(br#"{"emoji":"\uD83D\uDE80"}"#).expect("unicode payload should parse");
    assert_eq!(value.required_str("emoji"), Ok("🚀"));
}

#[test]
fn acceptance_5_roundtrip_preserves_complex_value_equivalence() {
    let value = JsonValue::Object(vec![
        (
            "meta".into(),
            JsonValue::Object(vec![("version".into(), num("1")), ("cursor".into(), JsonValue::Null)]),
        ),
        (
            "items".into(),
            JsonValue::Array(vec![
                JsonValue::Object(vec![
                    ("id".into(), JsonValue::String("one".into())),
                    ("enabled".into(), JsonValue::Bool(true)),
                ]),
                JsonValue::Object(vec![
                    ("id".into(), JsonValue::String("two".into())),
                    ("enabled".into(), JsonValue::Bool(false)),
                    ("score".into(), num("-0.0015")),
                ]),
            ]),
        ),
        ("message".into(), JsonValue::String("hello\u{0000}world".into())),
    ]);
    let encoded = encode(&value).expect("encode should succeed");
    let reparsed = parse(&encoded).expect("encoded value should parse");
    assert_eq!(reparsed, value);
    assert_eq!(reparsed.required_array("items").expect("items should be array").len(), 2);
}

#[test]
fn acceptance_8_end_to_end_atproto_like_payload_parses_and_accesses() {
    let response = br#"{
        "did":"did:plc:alice",
        "handle":"alice.test",
        "active":true,
        "viewer":{"muted":false,"blockedBy":null},
        "followersCount":128,
        "labels":[{"val":"verified","src":"did:plc:labeler"}]
    }"#;
    let value = parse(response).expect("ATProto-like response should parse");
    assert_eq!(value.required_str("did"), Ok("did:plc:alice"));
    assert_eq!(value.required_str("handle"), Ok("alice.test"));
    assert_eq!(value.required_bool("active"), Ok(true));
    assert_eq!(value.required_number("followersCount"), Ok("128"));
    let viewer = value.get("viewer").expect("viewer should exist");
    assert_eq!(viewer.required_bool("muted"), Ok(false));
    assert_eq!(viewer.optional_bool("blockedBy"), Ok(None));
    let labels = value.required_array("labels").expect("labels should be array");
    assert_eq!(labels.len(), 1);
    let label = JsonValue::Object(labels[0].as_object().expect("label should be object").to_vec());
    assert_eq!(label.required_str("val"), Ok("verified"));
    assert_eq!(label.required_str("src"), Ok("did:plc:labeler"));
}

#[test]
fn deep_encoding_does_not_read_back() {
    // 129 nested arrays encode, but reading them back exceeds the depth limit
    let mut v = JsonValue::Array(vec![]);
    for _ in 0..128 {
        v = JsonValue::Array(vec![v]);
    }
    let bytes = encode(&v).unwrap();
    assert_eq!(parse(&bytes).unwrap_err().kind, ParseErrorKind::NestingTooDeep);
}
