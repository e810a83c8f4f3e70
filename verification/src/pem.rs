//! Error type for a text-container (PEM, RFC 7468) layer built on this
//! codec: such a layer wraps codec output between boundary lines and hands
//! contiguous symbol text back to the codec on decode.

use vstd::prelude::*;

verus! {

/// Everything that can go wrong while reading or writing a PEM container.
#[derive(Copy, Clone, Debug, Eq, PartialEq, Structural)]
pub enum Error {
    /// Base64-related errors.
    Base64(crate::errors::Error),
    /// Character encoding-related errors.
    CharacterEncoding,
    /// Errors in the encapsulated text (which aren't specifically Base64-related).
    EncapsulatedText,
    /// Header detected in the encapsulated text.
    HeaderDisallowed,
    /// Invalid label.
    Label,
    /// Invalid length.
    Length,
    /// "Preamble" (text before the pre-encapsulation boundary) contains invalid data.
    Preamble,
    /// Errors in the pre-encapsulation boundary.
    PreEncapsulationBoundary,
    /// Errors in the post-encapsulation boundary.
    PostEncapsulationBoundary,
}

/// Result of a PEM container operation.
pub type Result<T> = core::result::Result<T, Error>;

impl Error {
    /// A short human-readable description of the failure, fixed per case;
    /// a wrapped codec error carries its own description after a colon.
    pub fn message(&self) -> (r: &'static str)
        ensures
            *self == Error::Base64(crate::errors::Error::InvalidEncoding) ==> r@
                == "PEM Base64 error: invalid Base64 encoding"@,
            *self == Error::Base64(crate::errors::Error::InvalidLength) ==> r@
                == "PEM Base64 error: invalid Base64 length"@,
            *self == Error::CharacterEncoding ==> r@ == "PEM character encoding error"@,
            *self == Error::EncapsulatedText ==> r@ == "PEM error in encapsulated text"@,
            *self == Error::HeaderDisallowed ==> r@ == "PEM headers disallowed by RFC7468"@,
            *self == Error::Label ==> r@ == "PEM type label invalid"@,
            *self == Error::Length ==> r@ == "PEM length invalid"@,
            *self == Error::Preamble ==> r@ == "PEM preamble contains invalid data (NUL byte)"@,
            *self == Error::PreEncapsulationBoundary ==> r@
                == "PEM error in pre-encapsulation boundary"@,
            *self == Error::PostEncapsulationBoundary ==> r@
                == "PEM error in post-encapsulation boundary"@,
    {
        match self {
            Error::Base64(crate::errors::Error::InvalidEncoding) => {
                "PEM Base64 error: invalid Base64 encoding"
            },
            Error::Base64(crate::errors::Error::InvalidLength) => {
                "PEM Base64 error: invalid Base64 length"
            },
            Error::CharacterEncoding => "PEM character encoding error",
            Error::EncapsulatedText => "PEM error in encapsulated text",
            Error::HeaderDisallowed => "PEM headers disallowed by RFC7468",
            Error::Label => "PEM type label invalid",
            Error::Length => "PEM length invalid",
            Error::Preamble => "PEM preamble contains invalid data (NUL byte)",
            Error::PreEncapsulationBoundary => "PEM error in pre-encapsulation boundary",
            Error::PostEncapsulationBoundary => "PEM error in post-encapsulation boundary",
        }
    }
}

impl From<crate::errors::Error> for Error {
    fn from(err: crate::errors::Error) -> (r: Error) {
        Error::Base64(err)
    }
}

impl vstd::std_specs::convert::FromSpecImpl<crate::errors::Error> for Error {
    open spec fn obeys_from_spec() -> bool {
        true
    }

    open spec fn from_spec(err: crate::errors::Error) -> Error {
        Error::Base64(err)
    }
}

impl From<crate::errors::InvalidLengthError> for Error {
    fn from(_err: crate::errors::InvalidLengthError) -> (r: Error) {
        Error::Length
    }
}

impl vstd::std_specs::convert::FromSpecImpl<crate::errors::InvalidLengthError> for Error {
    open spec fn obeys_from_spec() -> bool {
        true
    }

    open spec fn from_spec(_err: crate::errors::InvalidLengthError) -> Error {
        Error::Length
    }
}

} // verus!
