//! A JSON parser and canonical serializer, with the grammar, the decoding of
//! strings and the canonical text stated as spec functions and proved.

pub mod value;
pub mod grammar;
pub mod parser;
pub mod serializer;
pub mod document;
pub mod laws;

pub use value::{Json, Value};
pub use document::{match_rule, parse, Expected, ParseError, Rule, Span};
pub use serializer::serialize;
