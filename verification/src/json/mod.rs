//! JSON span parsing.
//!
//! This module provides a JSON parser that computes span information for
//! each JSON value within a source string: each node of the resulting
//! tree references the exact bytes of the corresponding characters in
//! the source. The parser does *not* interpret values — no unescaping,
//! no numeric evaluation — so a number's bytes, for instance, still
//! need separate parsing by the caller.

pub mod span;
pub mod types;
pub mod visit;

pub use span::{parse, parse_slice, parse_str};
pub use types::{Array, Bool, JsonKey, JsonValue, KeyValue, Null, Number, Object, String};
pub use visit::{JsonVisit, walk_value};
