//! The error that parsing can end in.

use vstd::prelude::*;

verus! {

/// Parsing failed: the value of `field` (`"event"`, `"id"` or `"data"`) was
/// not valid UTF-8.
#[derive(Debug, Clone, PartialEq, Eq)]
pub enum ParseError {
    InvalidUtf8 { field: String },
}

impl ParseError {
    /// The name of the field whose value was not valid UTF-8.
    pub open spec fn field_view(&self) -> Seq<char> {
        match self {
            ParseError::InvalidUtf8 { field } => field@,
        }
    }

    /// The error for a value of `field` that is not valid UTF-8.
    pub fn invalid_utf8(field: &str) -> (e: ParseError)
        ensures
            e.field_view() == field@,
    {
        ParseError::InvalidUtf8 { field: field.to_owned() }
    }

    /// The name of the field whose value was not valid UTF-8.
    pub fn field(&self) -> (f: &str)
        ensures
            f@ == self.field_view(),
    {
        match self {
            ParseError::InvalidUtf8 { field } => field.as_str(),
        }
    }
}

} // verus!
