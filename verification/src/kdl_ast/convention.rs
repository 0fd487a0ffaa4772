use vstd::prelude::*;
use crate::text::{str_chars, strip_char_prefix};

verus! {

/// What a node name counts as a marker: one exact name, or every name that
/// starts with a given character.
#[derive(Debug, Clone, PartialEq, Eq, Hash)]
pub enum Marker {
    Kind(String),
    Prefix(char),
}

/// The normal form chosen for one of the axes of notation.
#[derive(Debug, Clone, PartialEq, Eq)]
pub enum AxisForm {
    /// The notation is kept as written.
    Off,
    /// The expanded notation is the normal form.
    Expand,
    /// The collapsed notation is the normal form.
    Collapse,
    /// Expanded, with the marker that the expansion introduces.
    ExpandWithMarker(Marker),
    /// Collapsed, from the marker that the expansion introduced.
    CollapseWithMarker(Marker),
}

/// The normal form for properties against child nodes: `key=v` against a
/// flat `key v` child. Only these three forms exist.
#[derive(Debug, Clone, PartialEq, Eq)]
pub enum PropertyChildForm {
    Off,
    Expand,
    Collapse,
}

impl Marker {
    /// A copy of the marker.
    pub fn clone_marker(&self) -> (r: Marker)
        ensures
            r == *self,
    {
        match self {
            Marker::Kind(k) => Marker::Kind(k.clone()),
            Marker::Prefix(c) => Marker::Prefix(*c),
        }
    }
}

impl Default for AxisForm {
    fn default() -> (r: Self)
        ensures
            r is Off,
    {
        AxisForm::Off
    }
}

impl Default for PropertyChildForm {
    fn default() -> (r: Self)
        ensures
            r is Off,
    {
        PropertyChildForm::Off
    }
}

/// The markers of a document and the normal form of each axis.
#[derive(Debug, Clone, PartialEq, Eq)]
pub struct Convention {
    pub markers: Vec<Marker>,
    pub namespace_form: AxisForm,
    pub procedure_form: AxisForm,
    pub property_child_form: PropertyChildForm,
    pub type_annotation_form: AxisForm,
    pub kind_keyword_form: AxisForm,
}

/// Whether `marker` designates the node name `name`.
pub open spec fn marker_matches(marker: Marker, name: Seq<char>) -> bool {
    match marker {
        Marker::Kind(kind) => name == kind@,
        Marker::Prefix(c) => name.len() > 0 && name[0] == c,
    }
}

/// Whether some marker of `markers` designates `name`.
pub open spec fn is_marker_name(markers: Seq<Marker>, name: Seq<char>) -> bool {
    exists|i: int| 0 <= i < markers.len() && marker_matches(#[trigger] markers[i], name)
}

/// `name` without the character of the first prefix marker that it starts
/// with (in the order of `markers`); `name` itself when there is none.
pub open spec fn strip_prefix_of(markers: Seq<Marker>, name: Seq<char>) -> Seq<char>
    decreases markers.len(),
{
    if markers.len() == 0 {
        name
    } else {
        match markers[0] {
            Marker::Prefix(c) => if name.len() > 0 && name[0] == c {
                name.drop_first()
            } else {
                strip_prefix_of(markers.drop_first(), name)
            },
            Marker::Kind(_) => strip_prefix_of(markers.drop_first(), name),
        }
    }
}

impl Default for Convention {
    fn default() -> (r: Self)
        ensures
            r.markers@.len() == 0,
            r.namespace_form is Off,
            r.procedure_form is Off,
            r.property_child_form is Off,
            r.type_annotation_form is Off,
            r.kind_keyword_form is Off,
    {
        Convention {
            markers: Vec::new(),
            namespace_form: AxisForm::Off,
            procedure_form: AxisForm::Off,
            property_child_form: PropertyChildForm::Off,
            type_annotation_form: AxisForm::Off,
            kind_keyword_form: AxisForm::Off,
        }
    }
}

fn marker_matches_name(marker: &Marker, name: &str, chars: &Vec<char>) -> (r: bool)
    requires
        chars@ == name@,
    ensures
        r == marker_matches(*marker, name@),
{
    match marker {
        Marker::Kind(kind) => {
            let kind_chars = str_chars(kind.as_str());
            if kind_chars.len() != chars.len() {
                assert(name@.len() != kind@.len());
                return false;
            }
            let mut i: usize = 0;
            while i < chars.len()
                invariant
                    *marker == Marker::Kind(*kind),
                    kind_chars@ == kind@,
                    chars@ == name@,
                    kind_chars@.len() == chars@.len(),
                    0 <= i <= chars@.len(),
                    forall|j: int| 0 <= j < i ==> chars@[j] == kind_chars@[j],
                decreases chars@.len() - i,
            {
                if chars[i] != kind_chars[i] {
                    assert(name@[i as int] != kind@[i as int]);
                    return false;
                }
                i = i + 1;
            }
            assert(name@ =~= kind@);
            true
        },
        Marker::Prefix(c) => chars.len() > 0 && chars[0] == *c,
    }
}

impl Convention {
    pub fn new() -> (r: Self)
        ensures
            r.markers@.len() == 0,
            r.namespace_form is Off,
            r.procedure_form is Off,
            r.property_child_form is Off,
            r.type_annotation_form is Off,
            r.kind_keyword_form is Off,
    {
        Self::default()
    }

    pub fn with_marker(self, m: Marker) -> (r: Self)
        ensures
            r.markers@ == self.markers@.push(m),
            r.namespace_form == self.namespace_form,
            r.procedure_form == self.procedure_form,
            r.property_child_form == self.property_child_form,
            r.type_annotation_form == self.type_annotation_form,
            r.kind_keyword_form == self.kind_keyword_form,
    {
        let mut conv = self;
        conv.markers.push(m);
        conv
    }

    pub fn with_namespace_form(self, form: AxisForm) -> (r: Self)
        ensures
            r == (Convention { namespace_form: form, ..self }),
    {
        let mut conv = self;
        conv.namespace_form = form;
        conv
    }

    pub fn with_procedure_form(self, form: AxisForm) -> (r: Self)
        ensures
            r == (Convention { procedure_form: form, ..self }),
    {
        let mut conv = self;
        conv.procedure_form = form;
        conv
    }

    pub fn with_property_child_form(self, form: PropertyChildForm) -> (r: Self)
        ensures
            r == (Convention { property_child_form: form, ..self }),
    {
        let mut conv = self;
        conv.property_child_form = form;
        conv
    }

    pub fn with_type_annotation_form(self, form: AxisForm) -> (r: Self)
        ensures
            r == (Convention { type_annotation_form: form, ..self }),
    {
        let mut conv = self;
        conv.type_annotation_form = form;
        conv
    }

    pub fn with_kind_keyword_form(self, form: AxisForm) -> (r: Self)
        ensures
            r == (Convention { kind_keyword_form: form, ..self }),
    {
        let mut conv = self;
        conv.kind_keyword_form = form;
        conv
    }

    /// Whether some marker designates the node name.
    pub fn is_marker_kind(&self, node_name: &str) -> (r: bool)
        ensures
            r == is_marker_name(self.markers@, node_name@),
    {
        let chars = str_chars(node_name);
        let mut i: usize = 0;
        while i < self.markers.len()
            invariant
                chars@ == node_name@,
                0 <= i <= self.markers@.len(),
                forall|j: int|
                    0 <= j < i ==> !marker_matches(#[trigger] self.markers@[j], node_name@),
            decreases self.markers@.len() - i,
        {
            if marker_matches_name(&self.markers[i], node_name, &chars) {
                return true;
            }
            i = i + 1;
        }
        false
    }

    /// The node name without the character of the first prefix marker that
    /// it starts with; the name itself when there is none.
    pub fn strip_marker_prefix<'a>(&self, node_name: &'a str) -> (r: &'a str)
        ensures
            r@ == strip_prefix_of(self.markers@, node_name@),
    {
        let mut i: usize = 0;
        assert(self.markers@.skip(0) =~= self.markers@);
        while i < self.markers.len()
            invariant
                0 <= i <= self.markers@.len(),
                strip_prefix_of(self.markers@, node_name@) == strip_prefix_of(
                    self.markers@.skip(i as int),
                    node_name@,
                ),
            decreases self.markers@.len() - i,
        {
            assert(self.markers@.skip(i as int).drop_first() =~= self.markers@.skip(i + 1));
            if let Marker::Prefix(prefix) = &self.markers[i] {
                if let Some(stripped) = strip_char_prefix(node_name, *prefix) {
                    return stripped;
                }
            }
            i = i + 1;
        }
        node_name
    }
}

} // verus!
