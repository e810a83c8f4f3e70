//! Error types shared by every codec operation.

use vstd::prelude::*;

verus! {

/// A destination buffer was too small for the required result, or an input
/// text length is incompatible with the variant's padding rule.
#[derive(Clone, Copy, Debug, PartialEq, Eq, Structural)]
pub struct InvalidLengthError;

/// A symbol outside the variant's alphabet was found, or a padding symbol
/// stood where the variant forbids one.
#[derive(Clone, Copy, Debug, PartialEq, Eq, Structural)]
pub struct InvalidEncodingError;

/// The two failure kinds, unified for operations that can fail either way.
#[derive(Clone, Copy, Debug, PartialEq, Eq, Structural)]
pub enum Error {
    /// Invalid symbol or misplaced padding: see [`InvalidEncodingError`].
    InvalidEncoding,
    /// Invalid input or output length: see [`InvalidLengthError`].
    InvalidLength,
}

impl Error {
    /// A short human-readable description of the failure, fixed per case.
    pub fn message(&self) -> (r: &'static str)
        ensures
            *self == Error::InvalidEncoding ==> r@ == "invalid Base64 encoding"@,
            *self == Error::InvalidLength ==> r@ == "invalid Base64 length"@,
    {
        match self {
            Error::InvalidEncoding => "invalid Base64 encoding",
            Error::InvalidLength => "invalid Base64 length",
        }
    }
}

impl From<InvalidEncodingError> for Error {
    fn from(_e: InvalidEncodingError) -> (r: Error) {
        Error::InvalidEncoding
    }
}

impl vstd::std_specs::convert::FromSpecImpl<InvalidEncodingError> for Error {
    open spec fn obeys_from_spec() -> bool {
        true
    }

    open spec fn from_spec(_e: InvalidEncodingError) -> Error {
        Error::InvalidEncoding
    }
}

impl From<InvalidLengthError> for Error {
    fn from(_e: InvalidLengthError) -> (r: Error) {
        Error::InvalidLength
    }
}

impl vstd::std_specs::convert::FromSpecImpl<InvalidLengthError> for Error {
    open spec fn obeys_from_spec() -> bool {
        true
    }

    open spec fn from_spec(_e: InvalidLengthError) -> Error {
        Error::InvalidLength
    }
}

} // verus!
