use neco::plist::forms::{parse, parse_json5_like, parse_lines, ParseError};
use neco::plist::scalar::{is_f64_text, parse_scalar, PlistValue};

const SAMPLE: &str = "<root><name>neco</name><enabled>true</enabled></root>";

fn map_has_string(value: &PlistValue, key: &str, expected: &str) -> bool {
    match value {
        PlistValue::Dict(fields) => fields
            .iter()
            .any(|(k, v)| k == key && matches!(v, PlistValue::String(s) if s == expected)),
        _ => false,
    }
}

fn map_len(value: &PlistValue) -> usize {
    match value {
        PlistValue::Dict(fields) => fields.len(),
        _ => 0,
    }
}

fn chars(s: &str) -> Vec<char> {
    s.chars().collect()
}

#[test]
fn case_01() {
    let v = parse(SAMPLE).expect("parse");
    assert!(matches!(v, PlistValue::Dict(_)));
}

#[test]
fn parses_attribute_string() {
    let v = parse(SAMPLE).expect("parse");
    assert!(map_has_string(&v, "name", "neco"));
}

#[test]
fn exposes_children() {
    let v = parse(SAMPLE).expect("parse");
    assert!(map_len(&v) > 0);
    assert_eq!(
        v,
        PlistValue::Dict(vec![
            ("name".to_string(), PlistValue::String("neco".to_string())),
            ("enabled".to_string(), PlistValue::Bool(true)),
        ])
    );
}

#[test]
fn xml_nested_empty_and_errors() {
    let v = parse("  <plist><dict><a>1.5</a><b/></dict><c>[x, 2, ]</c></plist>").unwrap();
    assert_eq!(
        v,
        PlistValue::Dict(vec![
            // a nested text is read as a whole document: its first tag is
            // taken for the root and passed over
            ("dict".to_string(), PlistValue::Dict(vec![])),
            (
                "c".to_string(),
                PlistValue::List(vec![
                    PlistValue::String("x".to_string()),
                    PlistValue::Number("2".to_string())
                ])
            ),
        ])
    );
    assert_eq!(
        parse("<r><é>1</x></r>"),
        Err(ParseError { position: 0, message: "missing close tag".to_string() })
    );
    assert_eq!(
        parse("<r>é<c"),
        Err(ParseError { position: 2, message: "unterminated tag".to_string() })
    );
    let v = parse("<r><x><y/><z>1</z></x></r>").unwrap();
    assert_eq!(
        v,
        PlistValue::Dict(vec![(
            "x".to_string(),
            PlistValue::Dict(vec![("z".to_string(), PlistValue::Number("1".to_string()))])
        )])
    );
}

#[test]
fn line_form_keys_lists_and_errors() {
    let v = parse("# comment\nname = neco\n[tags] =\n- a\n- ~\ncount = 3\n").unwrap();
    assert_eq!(
        v,
        PlistValue::Dict(vec![
            ("name".to_string(), PlistValue::String("neco".to_string())),
            (
                "tags".to_string(),
                PlistValue::List(vec![PlistValue::String("a".to_string()), PlistValue::Null])
            ),
            ("count".to_string(), PlistValue::Number("3".to_string())),
        ])
    );
    let v = parse("- one\r\n- TRUE").unwrap();
    assert_eq!(
        v,
        PlistValue::Dict(vec![(
            "items".to_string(),
            PlistValue::List(vec![PlistValue::String("one".to_string()), PlistValue::Bool(true)])
        )])
    );
    assert_eq!(
        parse("a = 1\nno separator\n"),
        Err(ParseError { position: 1, message: "expected key/value line".to_string() })
    );
    assert_eq!(
        parse_lines("k: v", ":").unwrap(),
        PlistValue::Dict(vec![("k".to_string(), PlistValue::String("v".to_string()))])
    );
}

#[test]
fn scalars() {
    assert_eq!(parse_scalar(&chars(" \"False\", ")), PlistValue::Bool(false));
    assert_eq!(parse_scalar(&chars("'NULL'")), PlistValue::Null);
    assert_eq!(parse_scalar(&chars("-inf")), PlistValue::Number("-inf".to_string()));
    assert_eq!(parse_scalar(&chars("1e")), PlistValue::String("1e".to_string()));
    assert_eq!(parse_scalar(&chars("[]")), PlistValue::List(vec![]));
    assert!(is_f64_text(&chars("+.5E-3")));
    assert!(is_f64_text(&chars("Infinity")));
    assert!(!is_f64_text(&chars(".")));
    assert!(!is_f64_text(&chars("")));
    assert!(!is_f64_text(&chars("1.2.3")));
}

#[test]
fn brace_form() {
    let v = parse_json5_like("{ \"a\": 1, 'b': [x], // note\n , c: true }").unwrap();
    assert_eq!(
        v,
        PlistValue::Dict(vec![
            ("a".to_string(), PlistValue::Number("1".to_string())),
            ("b".to_string(), PlistValue::List(vec![PlistValue::String("x".to_string())])),
            ("c".to_string(), PlistValue::Bool(true)),
        ])
    );
    assert_eq!(
        parse_json5_like("{a}"),
        Err(ParseError { position: 0, message: "expected object field".to_string() })
    );
}
