use vstd::prelude::*;

verus! {

/// Kinds of JSON parse errors.
#[derive(Debug, Clone, PartialEq, Eq)]
pub enum ParseErrorKind {
    UnexpectedCharacter(u8),
    UnexpectedEnd,
    InvalidNumber,
    InvalidEscape,
    InvalidUnicodeEscape,
    NestingTooDeep,
    TrailingContent,
    InvalidUtf8,
}

/// JSON parse error with the byte position at which it was detected.
#[derive(Debug, Clone, PartialEq, Eq)]
pub struct ParseError {
    pub kind: ParseErrorKind,
    pub position: usize,
}

/// Accessor error.
#[derive(Debug, Clone, PartialEq, Eq)]
pub enum AccessError {
    NotAnObject,
    MissingField(String),
    TypeMismatch { field: String, expected: &'static str },
}

/// JSON encoding error.
#[derive(Debug, Clone, Copy, PartialEq, Eq, Structural)]
pub enum EncodeError {
    /// A number whose text is not a finite JSON number (`NaN`, `inf`, ...).
    NonFiniteNumber,
}

} // verus!
