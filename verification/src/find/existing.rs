//! Errors of a lookup where absence is an error too.
use vstd::prelude::*;

verus! {

/// The error returned by [`crate::find::find()`].
#[derive(Debug, Clone, PartialEq, Eq)]
pub enum Error {
    /// An error occurred while finding a reference in the database.
    Find(super::Error),
    /// The ref partially named `name` could not be found.
    NotFound { name: Vec<u8> },
}

} // verus!
