//! The error taxonomy shared by indicator constructors.

use vstd::prelude::*;

verus! {

/// The kinds of errors an indicator can report.
#[derive(Clone, Copy, Debug, PartialEq, Eq, Structural)]
pub enum ErrorKind {
    /// A construction parameter was outside its allowed range.
    InvalidParameter,
}

/// An error carrying the kind that caused it.
#[derive(Clone, Copy, Debug, PartialEq, Eq, Structural)]
pub struct Error {
    pub kind: ErrorKind,
}

impl Error {
    /// Wraps a kind into an error value.
    pub fn from_kind(kind: ErrorKind) -> (e: Error)
        ensures
            e.kind == kind,
    {
        Error { kind }
    }
}

} // verus!
