//! Parsers and structured access for JSON and KDL documents.
use vstd::prelude::*;

pub mod ast;
pub mod json;
pub mod kdl;
pub mod kdl_ast;
pub mod plist;
pub mod text;

verus! {

} // verus!
