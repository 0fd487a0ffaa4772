//! A reader for simple property lists: an XML-like form of nested tags, and
//! a line form of `key = value` pairs and `- item` lists.
pub mod chars;
pub mod scalar;
pub mod scalar_law;
pub mod forms;
