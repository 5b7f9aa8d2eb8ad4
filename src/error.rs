//! Errors of the library.
use vstd::prelude::*;

use crate::datatypes::DataType;

verus! {

/// `std::io::Error`, carried opaquely when writing encoded bytes fails.
#[verifier::external_type_specification]
#[verifier::external_body]
pub struct ExIoError(std::io::Error);

/// Why an operation failed.
#[derive(Debug)]
pub enum ArrowError {
    /// The operation does not support this logical type.
    NotYetImplemented(DataType),
    /// Writing encoded bytes failed.
    Io(std::io::Error),
}

} // verus!
