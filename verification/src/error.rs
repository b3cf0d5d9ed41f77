//! The ways in which a resolution can fail.

use vstd::prelude::*;

verus! {

/// Why a request was not resolved to a handler.
#[derive(Debug, Clone, Copy, PartialEq, Eq, Structural)]
pub enum RouterError {
    /// The method text names none of the supported verbs.
    InvalidMethod,
    /// No registered route has the request's method and a pattern that
    /// matches its path.
    NoMatch,
}

impl RouterError {
    /// The text that describes the error.
    pub open spec fn message_text(self) -> Seq<char> {
        match self {
            RouterError::InvalidMethod => "invalid method"@,
            RouterError::NoMatch => "no match routes"@,
        }
    }

    /// A human-readable description of the error.
    pub fn message(&self) -> (text: String)
        ensures
            text@ == self.message_text(),
    {
        match self {
            RouterError::InvalidMethod => "invalid method".to_string(),
            RouterError::NoMatch => "no match routes".to_string(),
        }
    }
}

} // verus!
