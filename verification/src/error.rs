//! The error type shared by every preprocessing entry point.

use vstd::prelude::*;

verus! {

/// Relies on `std::io::Error` only as an opaque value: the preprocessor
/// carries one through unchanged when a caller's reader or writer fails, and
/// never looks inside it.
#[verifier::external_type_specification]
#[verifier::external_body]
pub struct ExIoError(std::io::Error);

/// Errors returned from preprocessing.
#[derive(Debug)]
pub enum Error {
    /// A failure of the caller's input or output, passed through unchanged.
    Io(std::io::Error),
    /// Malformed preprocessor syntax: the 1-based number of the line it was
    /// found on, and a fixed message.
    Syntax { line: u32, msg: &'static str },
}

impl From<std::io::Error> for Error {
    fn from(other: std::io::Error) -> (r: Self) {
        Error::Io(other)
    }
}

impl vstd::std_specs::convert::FromSpecImpl<std::io::Error> for Error {
    open spec fn obeys_from_spec() -> bool {
        true
    }

    open spec fn from_spec(other: std::io::Error) -> Self {
        Error::Io(other)
    }
}

} // verus!
