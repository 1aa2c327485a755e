//! The parts of a JSON value that the library reads.
use vstd::prelude::*;

use crate::labels::Labels;

verus! {

/// A JSON value as the library sees it: a string; a number with its decimal text
/// and, when it is an integer that fits, its `i64` value; an object with its text
/// and its string-valued fields; anything else with its JSON text.
pub enum JsonValue {
    Str(String),
    Number { text: String, as_i64: Option<i64> },
    Object { text: String, string_fields: Labels },
    Other { text: String },
}

impl JsonValue {
    /// The string, when the value is one (`serde_json::Value::as_str`).
    pub fn as_str(&self) -> (r: Option<&String>)
        ensures
            match (r, self) {
                (Some(s), JsonValue::Str(t)) => s@ == t@,
                (None, JsonValue::Str(_)) => false,
                (Some(_), _) => false,
                (None, _) => true,
            },
    {
        match self {
            JsonValue::Str(s) => Some(s),
            _ => None,
        }
    }
}

} // verus!
