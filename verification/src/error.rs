//! The failures the index reports.

use vstd::prelude::*;

verus! {

/// Why an operation on the index was refused.
#[derive(Clone, Copy, Debug, PartialEq, Eq, Structural)]
pub enum KdError {
    /// No leaf is stored under the given name.
    NotFound,
    /// The points to build from are empty, or two of them share a name.
    MalformedInput,
    /// The keys for the internal nodes are too few, or one of them is used
    /// twice or is the name of a point.
    BadKeys,
}

impl KdError {
    /// A short description.
    pub fn message(&self) -> (s: String)
        ensures
            s@ == (match *self {
                KdError::NotFound => "no leaf of that name"@,
                KdError::MalformedInput => "empty input or a repeated name"@,
                KdError::BadKeys => "too few keys, or a key already in use"@,
            }),
    {
        match self {
            KdError::NotFound => "no leaf of that name".to_owned(),
            KdError::MalformedInput => "empty input or a repeated name".to_owned(),
            KdError::BadKeys => "too few keys, or a key already in use".to_owned(),
        }
    }
}

} // verus!
