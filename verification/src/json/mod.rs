//! JSON: parsing bytes into values, and the grammar it follows.
pub mod access;
pub mod encode;
pub mod error;
pub mod parse;
pub mod roundtrip;
pub mod spec;
pub mod structured;
pub mod traits;
pub mod value;

pub use encode::encode;
pub use error::{AccessError, EncodeError, ParseError, ParseErrorKind};
pub use parse::parse;
pub use traits::{FromJson, ToJson};
pub use value::JsonValue;
