//! The errors that the store's operations report.

use vstd::prelude::*;

verus! {

/// What went wrong in an operation of the store.
#[derive(Clone, Copy, Debug, PartialEq, Eq, Structural)]
pub enum StoreError {
    /// No object is stored under the identifier, or a source file is missing.
    NotFound,
    /// Stored bytes do not decompress, or do not have the expected layout.
    Corrupt,
    /// Reading or writing the storage failed.
    IoFailure,
    /// An argument is malformed, such as an identifier that is not 40 hex digits.
    InvalidArgument,
}

} // verus!
