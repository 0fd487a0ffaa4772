//! Structured layer over KDL documents: namespace paths, cross references,
//! conventions, structured entities and the rewrites between notations.
pub mod convention;
pub mod cross_ref;
pub mod document;
pub mod dot_chain;
pub mod fs_path;
pub mod kind_law;
pub mod lookup_law;
pub mod nest_law;
pub mod nsid;
pub mod path_law;
pub mod property_law;
pub mod render;
pub mod structured;
pub mod transform;
pub mod type_law;

pub use convention::{AxisForm, Convention, Marker, PropertyChildForm};
pub use cross_ref::{CrossRef, CrossRefParseError};
pub use document::{Document, LayoutMode, LayoutViolation, LayoutViolationKind};
pub use nsid::NsidPath;
pub use structured::{StructuredName, StructuredNode};
pub use transform::TransformOutcome;
