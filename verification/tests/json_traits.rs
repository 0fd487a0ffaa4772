use neco::json::{AccessError, FromJson, JsonValue, ToJson};

fn roundtrip<T: ToJson + FromJson + PartialEq + std::fmt::Debug>(value: T) {
    let json = value.to_json();
    let restored = T::from_json(&json).expect("from_json failed");
    assert_eq!(value, restored);
}

#[test]
fn roundtrip_bool_true() {
    roundtrip(true);
}

#[test]
fn roundtrip_bool_false() {
    roundtrip(false);
}

#[test]
fn roundtrip_string() {
    roundtrip("hello world".to_string());
}

#[test]
fn roundtrip_vec_string() {
    roundtrip(vec!["a".to_string(), "b".to_string()]);
}

#[test]
fn roundtrip_vec_bool() {
    roundtrip(vec![true, false, true]);
}

#[test]
fn roundtrip_option_some() {
    roundtrip(Some("x".to_string()));
}

#[test]
fn roundtrip_option_none() {
    let json = None::<String>.to_json();
    assert_eq!(json, JsonValue::Null);
    let restored = Option::<String>::from_json(&json).expect("from_json failed");
    assert_eq!(restored, None);
}

#[test]
fn roundtrip_box_string() {
    let boxed = Box::new("boxed".to_string());
    let json = boxed.to_json();
    let restored = Box::<String>::from_json(&json).expect("from_json failed");
    assert_eq!(boxed, restored);
}

#[test]
fn integers_are_written_exactly() {
    assert_eq!(42_i64.to_json(), JsonValue::Number("42".to_string()));
    assert_eq!((-1_i64).to_json(), JsonValue::Number("-1".to_string()));
    assert_eq!(0_u64.to_json(), JsonValue::Number("0".to_string()));
    assert_eq!(1_000_000_u64.to_json(), JsonValue::Number("1000000".to_string()));
    assert_eq!(
        vec![1_i64, 2, 3].to_json(),
        JsonValue::Array(vec![
            JsonValue::Number("1".to_string()),
            JsonValue::Number("2".to_string()),
            JsonValue::Number("3".to_string())
        ])
    );
    assert_eq!(Some(99_i64).to_json(), JsonValue::Number("99".to_string()));
}

#[test]
fn str_to_json_produces_string_variant() {
    assert_eq!("neco".to_json(), JsonValue::String("neco".into()));
}

#[test]
fn type_mismatch_returns_error() {
    let json = JsonValue::Bool(true);
    assert_eq!(
        String::from_json(&json),
        Err(AccessError::TypeMismatch { field: String::new(), expected: "string" })
    );
    assert_eq!(
        bool::from_json(&JsonValue::Null),
        Err(AccessError::TypeMismatch { field: String::new(), expected: "bool" })
    );
    assert_eq!(
        Vec::<bool>::from_json(&json),
        Err(AccessError::TypeMismatch { field: String::new(), expected: "array" })
    );
    assert_eq!(
        Vec::<bool>::from_json(&JsonValue::Array(vec![JsonValue::Bool(true), JsonValue::Null])),
        Err(AccessError::TypeMismatch { field: String::new(), expected: "bool" })
    );
}
