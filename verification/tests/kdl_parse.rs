use neco::kdl::{parse, KdlDocument, KdlEntry, KdlError, KdlErrorKind, KdlValue};

fn p(input: &str) -> KdlDocument {
    parse(input).unwrap()
}

fn p_err(input: &str) -> KdlError {
    parse(input).unwrap_err()
}

#[test]
fn parse_empty_document() {
    let doc = p("");
    assert!(doc.nodes.is_empty());
}

#[test]
fn single_node_no_entries() {
    let doc = p("node");
    assert_eq!(doc.nodes.len(), 1);
    assert_eq!(doc.nodes[0].name, "node");
    assert!(doc.nodes[0].entries.is_empty());
    assert!(doc.nodes[0].children.is_none());
}

#[test]
fn node_with_argument() {
    let doc = p("node 42");
    assert_eq!(doc.nodes[0].entries.len(), 1);
    match &doc.nodes[0].entries[0] {
        KdlEntry::Argument { value, .. } => match value {
            KdlValue::Number(n) => assert_eq!(n.as_i64, Some(42)),
            _ => panic!("expected number"),
        },
        _ => panic!("expected argument"),
    }
}

#[test]
fn node_with_string_argument() {
    let doc = p("node \"hello\"");
    match &doc.nodes[0].entries[0] {
        KdlEntry::Argument { value, .. } => {
            assert_eq!(value, &KdlValue::String("hello".to_string()));
        }
        _ => panic!("expected argument"),
    }
}

#[test]
fn node_with_property() {
    let doc = p("node key=\"value\"");
    assert_eq!(doc.nodes[0].entries.len(), 1);
    match &doc.nodes[0].entries[0] {
        KdlEntry::Property { key, value, .. } => {
            assert_eq!(key, "key");
            assert_eq!(value, &KdlValue::String("value".to_string()));
        }
        _ => panic!("expected property"),
    }
}

#[test]
fn node_with_mixed_entries() {
    let doc = p("node 1 key=\"val\" 2");
    assert_eq!(doc.nodes[0].entries.len(), 3);
}

#[test]
fn node_with_children() {
    let doc = p("parent {\n    child1\n    child2\n}");
    let parent = &doc.nodes[0];
    assert_eq!(parent.name, "parent");
    let children = parent.children.as_ref().unwrap();
    assert_eq!(children.len(), 2);
    assert_eq!(children[0].name, "child1");
    assert_eq!(children[1].name, "child2");
}

#[test]
fn node_children_inline() {
    let doc = p("node { child1; child2 }");
    let children = doc.nodes[0].children.as_ref().unwrap();
    assert_eq!(children.len(), 2);
}

#[test]
fn final_node_no_terminator() {
    let doc = p("node { child1; child2 }");
    let children = doc.nodes[0].children.as_ref().unwrap();
    assert_eq!(children.len(), 2);
    assert_eq!(children[1].name, "child2");
}

#[test]
fn multiple_nodes() {
    let doc = p("node1\nnode2\nnode3");
    assert_eq!(doc.nodes.len(), 3);
}

#[test]
fn semicolon_separator() {
    let doc = p("node1; node2; node3");
    assert_eq!(doc.nodes.len(), 3);
}

#[test]
fn type_annotation_on_node() {
    let doc = p("(mytype)node");
    assert_eq!(doc.nodes[0].ty, Some("mytype".to_string()));
    assert_eq!(doc.nodes[0].name, "node");
}

#[test]
fn type_annotation_on_value() {
    let doc = p("node (u8)123");
    match &doc.nodes[0].entries[0] {
        KdlEntry::Argument { ty, value } => {
            assert_eq!(ty, &Some("u8".to_string()));
            match value {
                KdlValue::Number(n) => assert_eq!(n.as_i64, Some(123)),
                _ => panic!("expected number"),
            }
        }
        _ => panic!("expected argument"),
    }
}

#[test]
fn keyword_values() {
    let doc = p("node #true #false #null");
    assert_eq!(doc.nodes[0].entries.len(), 3);
    match &doc.nodes[0].entries[0] {
        KdlEntry::Argument { value, .. } => assert_eq!(value, &KdlValue::Bool(true)),
        _ => panic!(),
    }
    match &doc.nodes[0].entries[1] {
        KdlEntry::Argument { value, .. } => assert_eq!(value, &KdlValue::Bool(false)),
        _ => panic!(),
    }
    match &doc.nodes[0].entries[2] {
        KdlEntry::Argument { value, .. } => assert_eq!(value, &KdlValue::Null),
        _ => panic!(),
    }
}

#[test]
fn slashdash_node() {
    let doc = p("node1\n/-node2\nnode3");
    assert_eq!(doc.nodes.len(), 2);
    assert_eq!(doc.nodes[0].name, "node1");
    assert_eq!(doc.nodes[1].name, "node3");
}

#[test]
fn slashdash_entry() {
    let doc = p("node 1 /- 2 3");
    assert_eq!(doc.nodes[0].entries.len(), 2);
}

#[test]
fn slashdash_children() {
    let doc = p("node /- { child } {\n    real-child\n}");
    let children = doc.nodes[0].children.as_ref().unwrap();
    assert_eq!(children.len(), 1);
    assert_eq!(children[0].name, "real-child");
}

#[test]
fn escline() {
    let doc = p("node \\\n    1 \\\n    2");
    assert_eq!(doc.nodes[0].entries.len(), 2);
}

#[test]
fn bare_keyword_rejected() {
    let err = p_err("true");
    assert_eq!(err.kind, KdlErrorKind::BareKeyword);
}

#[test]
fn bom_accepted() {
    let doc = p("\u{FEFF}node");
    assert_eq!(doc.nodes[0].name, "node");
}

#[test]
fn property_with_spaces_around_equals() {
    let doc = p("node key = \"value\"");
    match &doc.nodes[0].entries[0] {
        KdlEntry::Property { key, value, .. } => {
            assert_eq!(key, "key");
            assert_eq!(value, &KdlValue::String("value".to_string()));
        }
        _ => panic!("expected property"),
    }
}

#[test]
fn version_marker() {
    let doc = p("/- kdl-version 2\nnode");
    assert_eq!(doc.nodes.len(), 1);
    assert_eq!(doc.nodes[0].name, "node");
}

#[test]
fn quoted_node_name() {
    let doc = p("\"my node\" 1");
    assert_eq!(doc.nodes[0].name, "my node");
}

#[test]
fn parse_nested_children() {
    let doc = p("a {\n    b {\n        c\n    }\n}");
    let a = &doc.nodes[0];
    let b = &a.children.as_ref().unwrap()[0];
    let c = &b.children.as_ref().unwrap()[0];
    assert_eq!(c.name, "c");
}

#[test]
fn comments_ignored() {
    let doc = p("// comment\nnode /* inline */ 1 // trailing");
    assert_eq!(doc.nodes.len(), 1);
    assert_eq!(doc.nodes[0].entries.len(), 1);
}

fn first_string(doc: &KdlDocument) -> String {
    match &doc.nodes[0].entries[0] {
        KdlEntry::Argument { value: KdlValue::String(s), .. } => s.clone(),
        _ => panic!("expected a string argument"),
    }
}

#[test]
fn string_escapes_are_resolved() {
    assert_eq!(first_string(&p("n \"a\\tb\\n\\\"c\\\\\"")), "a\tb\n\"c\\");
    assert_eq!(first_string(&p("n \"\\u{41}\\u{1F600}\"")), "A\u{1F600}");
    assert_eq!(first_string(&p("n \"a\\   b\"")), "ab");
    assert_eq!(first_string(&p("n \"x\\s\"")), "x ");
}

#[test]
fn string_errors() {
    assert_eq!(p_err("n \"a\\qb\"").kind, KdlErrorKind::InvalidEscape);
    assert_eq!(p_err("n \"\\u{D800}\"").kind, KdlErrorKind::InvalidUnicodeEscape);
    assert_eq!(p_err("n \"abc").kind, KdlErrorKind::UnclosedString);
    let e = p_err("n \"abc");
    assert_eq!((e.line(), e.col()), (1, 3));
    assert_eq!(p_err("node null").kind, KdlErrorKind::BareKeyword);
}

#[test]
fn raw_strings() {
    assert_eq!(first_string(&p("n #\"a\\nb\"#")), "a\\nb");
    assert_eq!(first_string(&p("n ##\"say \"#hi\"#\"##")), "say \"#hi\"#");
    assert_eq!(p_err("n #\"abc").kind, KdlErrorKind::UnclosedString);
}

#[test]
fn multi_line_strings_lose_indentation() {
    let doc = p("n \"\"\"\n    first\n      second\n\n    third\n    \"\"\"");
    assert_eq!(first_string(&doc), "first\n  second\n\nthird");
    let raw = p("n #\"\"\"\n  a\\b\n  \"\"\"#");
    assert_eq!(first_string(&raw), "a\\b");
    assert_eq!(
        p_err("n \"\"\"\n  a\n b\n  \"\"\"").kind,
        KdlErrorKind::InconsistentIndentation
    );
}

#[test]
fn identifier_strings() {
    let doc = p("-foo .bar +baz=1");
    assert_eq!(doc.nodes[0].name, "-foo");
    assert_eq!(first_string(&doc), ".bar");
    match &doc.nodes[0].entries[1] {
        KdlEntry::Property { key, .. } => assert_eq!(key, "+baz"),
        _ => panic!("expected property"),
    }
}

#[test]
fn parse_errors_carry_positions() {
    let e = p_err("node {\n  child\n");
    assert_eq!(e.kind, KdlErrorKind::UnexpectedEof);
    let e = p_err("a\n(t)");
    assert_eq!(e.kind, KdlErrorKind::UnexpectedEof);
    assert_eq!(e.line(), 2);
    let e = p_err("node 1 /-");
    assert_eq!(e.kind, KdlErrorKind::InvalidSlashdash);
}

#[test]
fn normalize_empty_document() {
    let doc = KdlDocument { nodes: vec![] };
    assert_eq!(neco::kdl::normalize(&doc), "\n");
}

#[test]
fn normalize_nested_children() {
    let inner = neco::kdl::KdlNode { ty: None, name: "child".to_string(), entries: vec![], children: None };
    let node = neco::kdl::KdlNode {
        ty: None,
        name: "parent".to_string(),
        entries: vec![],
        children: Some(vec![inner]),
    };
    let doc = KdlDocument { nodes: vec![node] };
    assert_eq!(neco::kdl::normalize(&doc), "parent {\n    child\n}\n");
}
