//! Errors of the ROOT reader.

use vstd::prelude::*;

verus! {

/// Errors met while looking up and reading branches.
#[derive(Debug)]
pub enum Error {
    /// A branch holds another type than the one asked for.
    TypeMismatch { expected: String, given: String },
    /// No branch of that name.
    BranchNotFound { name: String },
}

pub type Result<T> = core::result::Result<T, Error>;

} // verus!
