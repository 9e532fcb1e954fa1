//! Errors of the storage layer.
use vstd::prelude::*;

verus! {

/// `std::io::Error` is carried through unchanged; nothing is read from it.
#[verifier::external_type_specification]
#[verifier::external_body]
pub struct ExIoError(std::io::Error);

/// Failure of a disk operation.
#[derive(Debug)]
pub enum DiskError {
    /// The underlying file operation failed.
    IoError(std::io::Error),
    /// No storage offset is recorded for this page.
    PageNotFound(i32),
}

} // verus!
