//! Value-based errors the engine reports to its caller.
use vstd::prelude::*;

verus! {

/// Why a sync pass was aborted. All errors are surfaced as values; a failed
/// pass leaves the store exactly as it was (no partial commit).
#[derive(Debug)]
pub enum CustomError {
    /// A required field of an incoming entity was absent.
    MissingField(String),
    /// An incoming value had an unusable shape.
    TypeMismatch(String),
    /// The remote side reported an error.
    Api(String),
    /// Anything else.
    Other(String),
}

impl CustomError {
    /// The error's text, for callers that print it.
    pub fn message(&self) -> (r: &String)
        ensures
            r@ == self.text(),
    {
        match self {
            CustomError::MissingField(s) => s,
            CustomError::TypeMismatch(s) => s,
            CustomError::Api(s) => s,
            CustomError::Other(s) => s,
        }
    }

    /// The text carried by the error.
    pub open spec fn text(self) -> Seq<char> {
        match self {
            CustomError::MissingField(s) => s@,
            CustomError::TypeMismatch(s) => s@,
            CustomError::Api(s) => s@,
            CustomError::Other(s) => s@,
        }
    }
}

/// Whether a sync result failed for want of a required field.
pub open spec fn is_missing_field<T>(r: Result<T, CustomError>) -> bool {
    match r {
        Err(e) => e is MissingField,
        Ok(_) => false,
    }
}

} // verus!
