use neco::kdl_ast::{AxisForm, Convention, CrossRef, CrossRefParseError, Marker, NsidPath, PropertyChildForm};

#[test]
fn segment_with_dot_not_well_formed() {
    let path = NsidPath::from_segments(&["a.b"]);
    assert!(!path.is_well_formed());
}

#[test]
fn segment_with_hash_not_well_formed() {
    let path = NsidPath::from_segments(&["a#b"]);
    assert!(!path.is_well_formed());
}

#[test]
fn empty_segment_not_well_formed() {
    let path = NsidPath::from_segments(&["a", "", "b"]);
    assert!(!path.is_well_formed());
}

#[test]
fn empty_string_yields_empty_path() {
    assert!(NsidPath::parse("").is_empty());
}

#[test]
fn dot_separator_only() {
    assert_eq!(
        NsidPath::parse("a.b.c").segments(),
        &["a".to_string(), "b".to_string(), "c".to_string()]
    );
}

#[test]
fn round_trip() {
    let input = "a.b.c";
    assert_eq!(NsidPath::parse(input).display(), input);
}

#[test]
fn parent_of_three_segment() {
    assert_eq!(
        NsidPath::parse("a.b.c").parent(),
        Some(NsidPath::parse("a.b"))
    );
}

#[test]
fn parent_of_empty() {
    assert_eq!(NsidPath::new().parent(), None);
}

#[test]
fn child_appends_segment() {
    assert_eq!(NsidPath::parse("a.b").child("c"), NsidPath::parse("a.b.c"));
}

#[test]
fn starts_with_prefix() {
    assert!(NsidPath::parse("a.b.c").starts_with(&NsidPath::parse("a.b")));
}

#[test]
fn starts_with_not_prefix() {
    assert!(!NsidPath::parse("a.b.c").starts_with(&NsidPath::parse("a.c")));
}

#[test]
fn nsid_accessors_on_concrete_paths() {
    let path = NsidPath::parse("a..b");
    assert_eq!(path.len(), 3);
    assert_eq!(path.first(), Some("a"));
    assert_eq!(path.last(), Some("b"));
    assert_eq!(path.segments()[1], "");
    assert!(!path.is_well_formed());
    assert!(NsidPath::parse("x.y").is_well_formed());
    assert_eq!(NsidPath::new().first(), None);
    assert_eq!(NsidPath::default(), NsidPath::new());
    assert_eq!(NsidPath::parse(".").display(), ".");
}

#[test]
fn nsid_display_parse_law_on_values() {
    for text in ["", "a", "a.b", "a..b", ".x.", "ねこ.いぬ"] {
        assert_eq!(NsidPath::parse(text).display(), text);
    }
    let path = NsidPath::from_segments(&["x", "yy", "z"]);
    assert_eq!(NsidPath::parse(&path.display()), path);
    let child = path.child("w");
    assert_eq!(child.parent(), Some(path.clone()));
    assert!(child.starts_with(&path));
}

#[test]
fn path_only() {
    let parsed = CrossRef::parse("a.b.c").expect("path ref");
    assert_eq!(parsed.nsid(), &NsidPath::parse("a.b.c"));
    assert_eq!(parsed.fragment(), None);
}

#[test]
fn path_with_fragment() {
    let parsed = CrossRef::parse("a.b.c#frag").expect("fragment ref");
    assert_eq!(parsed.nsid(), &NsidPath::parse("a.b.c"));
    assert_eq!(parsed.fragment(), Some("frag"));
}

#[test]
fn local_only() {
    let parsed = CrossRef::parse("#frag").expect("local ref");
    assert!(parsed.nsid().is_empty());
    assert_eq!(parsed.fragment(), Some("frag"));
}

#[test]
fn multiple_hashes_error() {
    assert_eq!(
        CrossRef::parse("a#b#c"),
        Err(CrossRefParseError::MultipleHashes)
    );
}

#[test]
fn empty_fragment_error() {
    assert_eq!(
        CrossRef::parse("a.b.c#"),
        Err(CrossRefParseError::EmptyFragment)
    );
}

#[test]
fn dot_in_fragment_error() {
    assert_eq!(
        CrossRef::parse("a.b.c#x.y"),
        Err(CrossRefParseError::DotInFragment)
    );
}

#[test]
fn empty_segment_error() {
    assert_eq!(
        CrossRef::parse("a..b"),
        Err(CrossRefParseError::EmptySegment)
    );
}

#[test]
fn round_trip_path_only() {
    let input = "a.b.c";
    assert_eq!(CrossRef::parse(input).expect("parse").display(), input);
}

#[test]
fn round_trip_path_with_fragment() {
    let input = "a.b.c#frag";
    assert_eq!(CrossRef::parse(input).expect("parse").display(), input);
}

#[test]
fn round_trip_local_only() {
    let input = "#frag";
    assert_eq!(CrossRef::parse(input).expect("parse").display(), input);
}

#[test]
fn is_local_for_local_only_ref() {
    assert!(CrossRef::parse("#frag").expect("parse").is_local());
}

#[test]
fn has_fragment_negative_for_path_only() {
    assert!(!CrossRef::parse("a.b.c").expect("parse").has_fragment());
}

#[test]
fn cross_ref_more_cases() {
    assert_eq!(CrossRef::parse("#"), Err(CrossRefParseError::EmptyFragment));
    assert_eq!(CrossRef::parse("#a.b"), Err(CrossRefParseError::DotInFragment));
    assert_eq!(CrossRef::parse("a..b#f"), Err(CrossRefParseError::EmptySegment));
    let empty = CrossRef::parse("").expect("empty ref");
    assert!(empty.nsid().is_empty());
    assert!(!empty.is_local());
    assert_eq!(empty.display(), "");
    let built = CrossRef::from_path_and_fragment(NsidPath::parse("a"), "f".to_string()).expect("built");
    assert_eq!(built.display(), "a#f");
    assert_eq!(
        CrossRef::from_path_and_fragment(NsidPath::parse("a"), "x.y".to_string()),
        Err(CrossRefParseError::DotInFragment)
    );
    assert_eq!(CrossRef::from_path(NsidPath::parse("a.b")).display(), "a.b");
    let text = CrossRef::from_path_and_fragment(NsidPath::parse("p.q"), "r".to_string())
        .expect("built")
        .display();
    assert_eq!(CrossRef::parse(&text).expect("reparse").display(), "p.q#r");
}

#[test]
fn convention_is_marker_kind_kind() {
    let conv = Convention::new().with_marker(Marker::Kind("_meta".to_owned()));
    assert!(conv.is_marker_kind("_meta"));
}

#[test]
fn convention_is_marker_kind_prefix() {
    let conv = Convention::new().with_marker(Marker::Prefix(':'));
    assert!(conv.is_marker_kind(":meta"));
}

#[test]
fn convention_strip_marker_prefix_kind() {
    let conv = Convention::new().with_marker(Marker::Kind("_meta".to_owned()));
    assert_eq!(conv.strip_marker_prefix("_meta"), "_meta");
}

#[test]
fn convention_strip_marker_prefix_prefix() {
    let conv = Convention::new().with_marker(Marker::Prefix(':'));
    assert_eq!(conv.strip_marker_prefix(":meta"), "meta");
}

#[test]
fn convention_default_all_axes_off() {
    let conv = Convention::default();
    assert!(matches!(conv.namespace_form, AxisForm::Off));
    assert!(matches!(conv.procedure_form, AxisForm::Off));
    assert!(matches!(conv.property_child_form, PropertyChildForm::Off));
    assert!(matches!(conv.type_annotation_form, AxisForm::Off));
    assert!(matches!(conv.kind_keyword_form, AxisForm::Off));
    assert!(conv.markers.is_empty());
}

#[test]
fn convention_with_per_axis_form() {
    let conv = Convention::new()
        .with_namespace_form(AxisForm::Expand)
        .with_procedure_form(AxisForm::Collapse)
        .with_property_child_form(PropertyChildForm::Expand)
        .with_type_annotation_form(AxisForm::ExpandWithMarker(Marker::Prefix(':')))
        .with_kind_keyword_form(AxisForm::CollapseWithMarker(Marker::Kind("_id".to_owned())));
    assert_eq!(conv.namespace_form, AxisForm::Expand);
    assert_eq!(conv.procedure_form, AxisForm::Collapse);
    assert_eq!(conv.property_child_form, PropertyChildForm::Expand);
    assert_eq!(
        conv.type_annotation_form,
        AxisForm::ExpandWithMarker(Marker::Prefix(':'))
    );
    assert_eq!(
        conv.kind_keyword_form,
        AxisForm::CollapseWithMarker(Marker::Kind("_id".to_owned()))
    );
}

#[test]
fn property_child_fused_form_only() {
    let _off = PropertyChildForm::Off;
    let _expand = PropertyChildForm::Expand;
    let _collapse = PropertyChildForm::Collapse;
    let names = format!(
        "{:?} {:?} {:?}",
        PropertyChildForm::Off,
        PropertyChildForm::Expand,
        PropertyChildForm::Collapse
    );
    assert!(names.contains("Off"));
    assert!(names.contains("Expand"));
    assert!(names.contains("Collapse"));
}

#[test]
fn convention_markers_in_order() {
    let conv = Convention::new()
        .with_marker(Marker::Kind("_id".to_owned()))
        .with_marker(Marker::Prefix('@'))
        .with_marker(Marker::Prefix(':'));
    assert!(!conv.is_marker_kind("meta"));
    assert!(!conv.is_marker_kind("_i"));
    assert!(conv.is_marker_kind("@x"));
    assert_eq!(conv.strip_marker_prefix(":x"), "x");
    assert_eq!(conv.strip_marker_prefix("@:x"), ":x");
    assert_eq!(conv.strip_marker_prefix("plain"), "plain");
}

#[test]
fn to_fs_path_with_ext() {
    assert_eq!(
        NsidPath::parse("a.b.c").to_fs_path("kdl"),
        std::path::Path::new("a").join("b").join("c.kdl")
    );
}

#[test]
fn to_fs_path_empty_returns_just_ext_or_empty() {
    assert_eq!(NsidPath::new().to_fs_path("kdl"), std::path::PathBuf::new());
    assert_eq!(NsidPath::new().to_fs_path(""), std::path::PathBuf::new());
}

#[test]
fn to_fs_path_drops_leading_dot_of_ext() {
    assert_eq!(
        NsidPath::parse("a.b").to_fs_path(".kdl"),
        std::path::Path::new("a").join("b.kdl")
    );
    assert_eq!(
        NsidPath::parse("a.b").to_fs_path(""),
        std::path::Path::new("a").join("b")
    );
}

#[test]
fn from_fs_path_relative() {
    assert_eq!(
        NsidPath::from_fs_path("base/a/b/c.kdl", "base"),
        Some(NsidPath::parse("a.b.c"))
    );
}

#[test]
fn from_fs_path_outside_base() {
    assert_eq!(NsidPath::from_fs_path("other/a.kdl", "base"), None);
}

#[test]
fn from_fs_path_with_dot_segment_returns_none() {
    assert_eq!(NsidPath::from_fs_path("base/.config/file.kdl", "base"), None);
}

#[test]
fn from_components_uses_file_stem() {
    let parts = vec![Some("x".to_string()), Some("y.tar.gz".to_string())];
    assert_eq!(NsidPath::from_components(&parts), None);
    let parts = vec![Some("x".to_string()), Some("y.kdl".to_string())];
    assert_eq!(NsidPath::from_components(&parts), Some(NsidPath::parse("x.y")));
    let parts = vec![Some("x".to_string()), None];
    assert_eq!(NsidPath::from_components(&parts), None);
    assert_eq!(NsidPath::from_components(&Vec::new()), None);
}

#[test]
fn fs_path_components_read_back() {
    let p = NsidPath::parse("app.models.user");
    let path = p.to_fs_path(".kdl");
    let parts: Vec<Option<String>> = path
        .components()
        .map(|c| c.as_os_str().to_str().map(|s| s.to_string()))
        .collect();
    assert_eq!(NsidPath::from_components(&parts), Some(p.clone()));
    let joined = std::path::Path::new("base").join(p.to_fs_path("kdl"));
    assert_eq!(NsidPath::from_fs_path(joined.to_str().unwrap(), "base"), Some(p));
}
