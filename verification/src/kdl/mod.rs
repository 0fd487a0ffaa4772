//! KDL v2: scanning, comments, numbers, strings, the document parser and its
//! grammar, values, and the normalised and plain text forms of a document.
pub mod builder;
pub mod comment;
pub mod convert;
pub mod convert_law;
pub mod doc_law;
pub mod grammar;
pub mod normalize;
pub mod number;
pub mod parse;
pub mod number_form;
pub mod props_law;
pub mod quote;
pub mod scan;
pub mod serialize;
pub mod string;
pub mod string_law;
pub mod syntax;
pub mod value;

pub use builder::{KdlDocumentBuilder, KdlNodeBuilder};
pub use normalize::normalize;
pub use parse::parse;
pub use serialize::serialize;
pub use value::{KdlDocument, KdlEntry, KdlError, KdlErrorKind, KdlNode, KdlNumber, KdlValue};
