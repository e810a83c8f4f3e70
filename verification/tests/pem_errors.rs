//! The PEM container layer's error type, built over the codec's errors.

use base64ct::pem;
use base64ct::{Error, InvalidLengthError};

#[test]
fn pem_error_from_codec_error() {
    assert_eq!(pem::Error::from(Error::InvalidEncoding), pem::Error::Base64(Error::InvalidEncoding));
    assert_eq!(pem::Error::from(Error::InvalidLength), pem::Error::Base64(Error::InvalidLength));
}

#[test]
fn pem_error_from_invalid_length() {
    assert_eq!(pem::Error::from(InvalidLengthError), pem::Error::Length);
}

#[test]
fn pem_error_result_alias() {
    let ok: pem::Result<u32> = Ok(7);
    let err: pem::Result<u32> = Err(pem::Error::Label);
    assert_eq!(ok, Ok(7));
    assert_eq!(err, Err(pem::Error::Label));
}

#[test]
fn pem_base64_error_message_carries_inner_description() {
    // the wrapped codec error's own description follows the fixed prefix
    for inner in [Error::InvalidEncoding, Error::InvalidLength] {
        assert_eq!(
            pem::Error::Base64(inner).message(),
            format!("PEM Base64 error: {}", inner.message())
        );
    }
}

#[test]
fn pem_error_messages() {
    assert_eq!(
        pem::Error::Base64(Error::InvalidEncoding).message(),
        "PEM Base64 error: invalid Base64 encoding"
    );
    assert_eq!(
        pem::Error::Base64(Error::InvalidLength).message(),
        "PEM Base64 error: invalid Base64 length"
    );
    assert_eq!(pem::Error::CharacterEncoding.message(), "PEM character encoding error");
    assert_eq!(pem::Error::EncapsulatedText.message(), "PEM error in encapsulated text");
    assert_eq!(pem::Error::HeaderDisallowed.message(), "PEM headers disallowed by RFC7468");
    assert_eq!(pem::Error::Label.message(), "PEM type label invalid");
    assert_eq!(pem::Error::Length.message(), "PEM length invalid");
    assert_eq!(pem::Error::Preamble.message(), "PEM preamble contains invalid data (NUL byte)");
    assert_eq!(
        pem::Error::PreEncapsulationBoundary.message(),
        "PEM error in pre-encapsulation boundary"
    );
    assert_eq!(
        pem::Error::PostEncapsulationBoundary.message(),
        "PEM error in post-encapsulation boundary"
    );
}
