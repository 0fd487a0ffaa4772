use neco::json::{AccessError, JsonValue};

fn sample_object() -> JsonValue {
    JsonValue::Object(vec![
        ("name".into(), JsonValue::String("neco".into())),
        ("enabled".into(), JsonValue::Bool(true)),
        ("score".into(), JsonValue::Number("42.5".into())),
        (
            "items".into(),
            JsonValue::Array(vec![JsonValue::Bool(false), JsonValue::Null]),
        ),
        (
            "meta".into(),
            JsonValue::Object(vec![("nested".into(), JsonValue::String("ok".into()))]),
        ),
        ("maybe".into(), JsonValue::Null),
        ("dup".into(), JsonValue::String("first".into())),
        ("dup".into(), JsonValue::String("second".into())),
    ])
}

#[test]
fn is_methods_match_variants() {
    assert!(JsonValue::Null.is_null());
    assert!(JsonValue::Bool(true).is_bool());
    assert!(JsonValue::Number("1".into()).is_number());
    assert!(JsonValue::String("x".into()).is_string());
    assert!(JsonValue::Array(vec![]).is_array());
    assert!(JsonValue::Object(vec![]).is_object());
    assert!(!JsonValue::Null.is_object());
}

#[test]
fn as_methods_return_expected_values() {
    let value = JsonValue::Bool(true);
    assert_eq!(value.as_bool(), Some(true));
    assert_eq!(value.as_number(), None);

    let value = JsonValue::Number("3.25".into());
    assert_eq!(value.as_number(), Some("3.25"));
    assert_eq!(value.as_str(), None);

    let value = JsonValue::String("cat".into());
    assert_eq!(value.as_str(), Some("cat"));
    assert_eq!(value.as_array(), None);

    let array = vec![JsonValue::Null];
    let value = JsonValue::Array(array.clone());
    assert_eq!(value.as_array(), Some(array.as_slice()));
    assert_eq!(value.as_object(), None);

    let object = vec![("k".into(), JsonValue::Bool(false))];
    let value = JsonValue::Object(object.clone());
    assert_eq!(value.as_object(), Some(object.as_slice()));
    assert_eq!(value.as_bool(), None);
}

#[test]
fn get_reads_object_field_and_keeps_first_duplicate() {
    let object = sample_object();
    assert_eq!(object.get("name"), Some(&JsonValue::String("neco".into())));
    assert_eq!(object.get("dup"), Some(&JsonValue::String("first".into())));
    assert_eq!(object.get("missing"), None);
    assert_eq!(JsonValue::Bool(true).get("name"), None);
}

#[test]
fn required_accessors_cover_success_and_errors() {
    let object = sample_object();
    assert_eq!(object.required_str("name"), Ok("neco"));
    assert_eq!(object.required_bool("enabled"), Ok(true));
    assert_eq!(object.required_number("score"), Ok("42.5"));
    assert_eq!(
        object.required_array("items"),
        Ok([JsonValue::Bool(false), JsonValue::Null].as_slice())
    );
    assert_eq!(
        object.required_object("meta"),
        Ok([("nested".into(), JsonValue::String("ok".into()))].as_slice())
    );
    assert_eq!(
        object.required_str("missing"),
        Err(AccessError::MissingField(String::from("missing")))
    );
    assert_eq!(
        object.required_bool("name"),
        Err(AccessError::TypeMismatch {
            field: String::from("name"),
            expected: "bool",
        })
    );
    assert_eq!(
        object.required_object("name"),
        Err(AccessError::TypeMismatch {
            field: String::from("name"),
            expected: "object",
        })
    );
    assert_eq!(JsonValue::Null.required_str("name"), Err(AccessError::NotAnObject));
}

#[test]
fn optional_accessors_cover_success_none_and_errors() {
    let object = sample_object();
    assert_eq!(object.optional_str("name"), Ok(Some("neco")));
    assert_eq!(object.optional_bool("enabled"), Ok(Some(true)));
    assert_eq!(object.optional_number("score"), Ok(Some("42.5")));
    assert_eq!(
        object.optional_array("items"),
        Ok(Some([JsonValue::Bool(false), JsonValue::Null].as_slice()))
    );
    assert_eq!(object.optional_str("missing"), Ok(None));
    assert_eq!(object.optional_str("maybe"), Ok(None));
    assert_eq!(
        object.optional_bool("name"),
        Err(AccessError::TypeMismatch {
            field: String::from("name"),
            expected: "bool",
        })
    );
    assert_eq!(
        object.optional_array("name"),
        Err(AccessError::TypeMismatch {
            field: String::from("name"),
            expected: "array",
        })
    );
    assert_eq!(JsonValue::Null.optional_str("name"), Err(AccessError::NotAnObject));
}

#[test]
fn deep_copy_is_equal() {
    let object = sample_object();
    assert_eq!(object.deep_copy(), object);
    assert_eq!(object.clone(), object);
}
