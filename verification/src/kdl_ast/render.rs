//! Rendering a document in the normal forms that a convention declares,
//! one axis of notation after the other.
use vstd::prelude::*;
use crate::kdl::value::{copy_nodes, nodes_view, KdlDocument, Node};
use super::convention::{AxisForm, Convention, Marker, PropertyChildForm};
use super::document::Document;
use super::dot_chain::{collapse_chains, expand_list};
use super::transform::{collapse_props_nodes, marker_view, walk_nodes, OpV};

verus! {

/// The kinds named by the kind markers of a convention, in order.
pub open spec fn kind_markers(ms: Seq<Marker>) -> Seq<Seq<char>>
    decreases ms.len(),
{
    if ms.len() == 0 {
        Seq::empty()
    } else {
        match ms.last() {
            Marker::Kind(k) => kind_markers(ms.drop_last()).push(k@),
            _ => kind_markers(ms.drop_last()),
        }
    }
}

/// Axis 5, kind keywords: only the forms with a marker act.
pub open spec fn axis_5(ns: Seq<Node>, form: AxisForm, conv: Convention) -> Seq<Node> {
    match form {
        AxisForm::ExpandWithMarker(m) => walk_nodes(OpV::ExpandKind(marker_view(m)), conv, ns, false).0,
        AxisForm::CollapseWithMarker(m) => walk_nodes(
            OpV::CollapseKind(marker_view(m)),
            conv,
            ns,
            false,
        ).0,
        _ => ns,
    }
}

/// Axis 4, type annotations: only the forms with a marker act.
pub open spec fn axis_4(ns: Seq<Node>, form: AxisForm, conv: Convention) -> Seq<Node> {
    match form {
        AxisForm::ExpandWithMarker(m) => walk_nodes(OpV::ExpandType(marker_view(m)), conv, ns, false).0,
        AxisForm::CollapseWithMarker(m) => walk_nodes(
            OpV::CollapseType(marker_view(m)),
            conv,
            ns,
            false,
        ).0,
        _ => ns,
    }
}

/// Axis 1, namespaces: only the plain forms act.
pub open spec fn axis_1(ns: Seq<Node>, form: AxisForm, conv: Convention) -> Seq<Node> {
    match form {
        AxisForm::Expand => walk_nodes(OpV::Nest, conv, ns, false).0,
        AxisForm::Collapse => walk_nodes(OpV::Flatten, conv, ns, false).0,
        _ => ns,
    }
}

/// Dot chains of each kind expanded in turn; a kind whose chains skip a
/// level leaves the nodes as they are.
pub open spec fn expand_kinds(ns: Seq<Node>, kinds: Seq<Seq<char>>, conv: Convention) -> Seq<Node>
    decreases kinds.len(),
{
    if kinds.len() == 0 {
        ns
    } else {
        let before = expand_kinds(ns, kinds.drop_last(), conv);
        match expand_list(before, kinds.last(), conv).1 {
            Ok(_) => expand_list(before, kinds.last(), conv).0,
            Err(_) => before,
        }
    }
}

/// Dot chains of each kind collapsed in turn; a kind that cannot be
/// collapsed leaves the nodes as they are.
pub open spec fn collapse_kinds(ns: Seq<Node>, kinds: Seq<Seq<char>>, conv: Convention) -> Seq<Node>
    decreases kinds.len(),
{
    if kinds.len() == 0 {
        ns
    } else {
        let prev = collapse_kinds(ns, kinds.drop_last(), conv);
        match collapse_chains(prev, kinds.last(), conv) {
            Ok((out, _)) => out,
            Err(_) => prev,
        }
    }
}

/// Axis 2, procedures: the dot chains of the kinds of the kind markers;
/// only the plain forms act.
pub open spec fn axis_2(ns: Seq<Node>, form: AxisForm, conv: Convention) -> Seq<Node> {
    match form {
        AxisForm::Expand => expand_kinds(ns, kind_markers(conv.markers@), conv),
        AxisForm::Collapse => collapse_kinds(ns, kind_markers(conv.markers@), conv),
        _ => ns,
    }
}

/// Axis 3, properties against child nodes.
pub open spec fn axis_3(ns: Seq<Node>, form: PropertyChildForm, conv: Convention) -> Seq<Node> {
    match form {
        PropertyChildForm::Expand => walk_nodes(OpV::ExpandProperties, conv, ns, false).0,
        PropertyChildForm::Collapse => match collapse_props_nodes(conv, ns, false) {
            Ok((out, _)) => out,
            Err(_) => ns,
        },
        PropertyChildForm::Off => ns,
    }
}

/// The nodes rendered in the normal forms of `conv`: kind keywords, then
/// type annotations, namespaces, procedures and properties.
pub open spec fn rendered(ns: Seq<Node>, conv: Convention) -> Seq<Node> {
    axis_3(
        axis_2(
            axis_1(
                axis_4(axis_5(ns, conv.kind_keyword_form, conv), conv.type_annotation_form, conv),
                conv.namespace_form,
                conv,
            ),
            conv.procedure_form,
            conv,
        ),
        conv.property_child_form,
        conv,
    )
}

fn kind_marker_names(conv: &Convention) -> (r: Vec<String>)
    ensures
        r@.map_values(|s: String| s@) == kind_markers(conv.markers@),
{
    let ms = &conv.markers;
    let mut out: Vec<String> = Vec::new();
    let mut i: usize = 0;
    proof {
        assert(ms@.take(0) =~= Seq::<Marker>::empty());
        assert(out@.map_values(|s: String| s@) =~= Seq::<Seq<char>>::empty());
    }
    while i < ms.len()
        invariant
            ms == &conv.markers,
            0 <= i <= ms@.len(),
            out@.map_values(|s: String| s@) == kind_markers(ms@.take(i as int)),
        decreases ms@.len() - i,
    {
        proof {
            assert(ms@.take(i + 1).drop_last() =~= ms@.take(i as int));
            assert(ms@.take(i + 1).last() == ms@[i as int]);
        }
        let ghost before = out@;
        if let Marker::Kind(k) = &ms[i] {
            out.push(k.clone());
            proof {
                assert(out@.map_values(|s: String| s@) =~= before.map_values(|s: String| s@).push(
                    k@,
                ));
            }
        }
        i = i + 1;
    }
    proof {
        assert(ms@.take(ms@.len() as int) =~= ms@);
    }
    out
}

impl Document {
    /// The document rendered in the normal forms that `conv` declares, axis
    /// by axis: kind keywords, type annotations, namespaces, procedures
    /// (dot chains of the kinds of its kind markers), properties. An axis
    /// that is off, or a form that does not apply to it, leaves the nodes as
    /// they are.
    pub fn render_as(&self, conv: &Convention) -> (r: Document)
        ensures
            nodes_view(r.nodes_spec()) == rendered(nodes_view(self.nodes_spec()), *conv),
    {
        let copy = copy_nodes(self.nodes_ref());
        let mut doc = Document::from_kdl(KdlDocument { nodes: copy });
        doc = match &conv.kind_keyword_form {
            AxisForm::ExpandWithMarker(m) => doc.expand_kind_keyword(m, conv).0,
            AxisForm::CollapseWithMarker(m) => doc.collapse_kind_keyword(m, conv).0,
            _ => doc,
        };
        doc = match &conv.type_annotation_form {
            AxisForm::ExpandWithMarker(m) => doc.expand_type_annotations(m, conv).0,
            AxisForm::CollapseWithMarker(m) => doc.collapse_type_annotations(m, conv).0,
            _ => doc,
        };
        doc = match &conv.namespace_form {
            AxisForm::Expand => doc.nest(conv).0,
            AxisForm::Collapse => doc.flatten(conv).0,
            _ => doc,
        };
        let ghost before_2 = nodes_view(doc.nodes_spec());
        let kinds = kind_marker_names(conv);
        doc = match &conv.procedure_form {
            AxisForm::Expand => {
                let mut d = doc;
                let mut i: usize = 0;
                proof {
                    assert(kinds@.map_values(|s: String| s@).take(0) =~= Seq::<Seq<char>>::empty());
                }
                while i < kinds.len()
                    invariant
                        0 <= i <= kinds@.len(),
                        kinds@.map_values(|s: String| s@) == kind_markers(conv.markers@),
                        nodes_view(d.nodes_spec()) == expand_kinds(
                            before_2,
                            kinds@.map_values(|s: String| s@).take(i as int),
                            *conv,
                        ),
                    decreases kinds@.len() - i,
                {
                    proof {
                        let ks = kinds@.map_values(|s: String| s@);
                        assert(ks.take(i + 1).drop_last() =~= ks.take(i as int));
                        assert(ks.take(i + 1).last() == kinds@[i as int]@);
                    }
                    d = d.expand_dot_chain(kinds[i].as_str(), conv).0;
                    i = i + 1;
                }
                proof {
                    let ks = kinds@.map_values(|s: String| s@);
                    assert(ks.take(kinds@.len() as int) =~= ks);
                }
                d
            },
            AxisForm::Collapse => {
                let mut d = doc;
                let mut i: usize = 0;
                proof {
                    assert(kinds@.map_values(|s: String| s@).take(0) =~= Seq::<Seq<char>>::empty());
                }
                while i < kinds.len()
                    invariant
                        0 <= i <= kinds@.len(),
                        kinds@.map_values(|s: String| s@) == kind_markers(conv.markers@),
                        nodes_view(d.nodes_spec()) == collapse_kinds(
                            before_2,
                            kinds@.map_values(|s: String| s@).take(i as int),
                            *conv,
                        ),
                    decreases kinds@.len() - i,
                {
                    proof {
                        let ks = kinds@.map_values(|s: String| s@);
                        assert(ks.take(i + 1).drop_last() =~= ks.take(i as int));
                        assert(ks.take(i + 1).last() == kinds@[i as int]@);
                    }
                    d = d.collapse_dot_chain(kinds[i].as_str(), conv).0;
                    i = i + 1;
                }
                proof {
                    let ks = kinds@.map_values(|s: String| s@);
                    assert(ks.take(kinds@.len() as int) =~= ks);
                }
                d
            },
            _ => doc,
        };
        doc = match &conv.property_child_form {
            PropertyChildForm::Expand => doc.expand_properties(conv).0,
            PropertyChildForm::Collapse => doc.collapse_properties(conv).0,
            PropertyChildForm::Off => doc,
        };
        doc
    }
}

/// Each axis leaves the nodes as they are when it is off, and when its form
/// does not apply to it: plain `Expand` and `Collapse` on the axes of type
/// annotations and kind keywords, the forms with a marker on the axes of
/// namespaces and procedures.
pub proof fn law_inactive_forms(ns: Seq<Node>, conv: Convention, m: Marker)
    ensures
        axis_5(ns, AxisForm::Off, conv) == ns,
        axis_5(ns, AxisForm::Expand, conv) == ns,
        axis_5(ns, AxisForm::Collapse, conv) == ns,
        axis_4(ns, AxisForm::Off, conv) == ns,
        axis_4(ns, AxisForm::Expand, conv) == ns,
        axis_4(ns, AxisForm::Collapse, conv) == ns,
        axis_1(ns, AxisForm::Off, conv) == ns,
        axis_1(ns, AxisForm::ExpandWithMarker(m), conv) == ns,
        axis_1(ns, AxisForm::CollapseWithMarker(m), conv) == ns,
        axis_2(ns, AxisForm::Off, conv) == ns,
        axis_2(ns, AxisForm::ExpandWithMarker(m), conv) == ns,
        axis_2(ns, AxisForm::CollapseWithMarker(m), conv) == ns,
        axis_3(ns, PropertyChildForm::Off, conv) == ns,
{
}

/// A convention whose axes are all off renders a document as it is.
pub proof fn law_render_off(ns: Seq<Node>, conv: Convention)
    requires
        conv.kind_keyword_form is Off,
        conv.type_annotation_form is Off,
        conv.namespace_form is Off,
        conv.procedure_form is Off,
        conv.property_child_form is Off,
    ensures
        rendered(ns, conv) == ns,
{
}

} // verus!
