//! Constant-time Base64 codec family in the style of RFC 4648.
//!
//! Conversion between raw bytes and printable 6-bit-per-symbol text is done
//! with integer arithmetic alone: no lookup tables and no data-dependent
//! branches, so that the sequence of operations depends only on the input
//! *length*, never on the input *values*.  This makes the codec safe to run
//! over secret data such as private keys.
//!
//! Six variants are provided: standard padded/unpadded ([`Base64`],
//! [`Base64Unpadded`]), URL-safe padded/unpadded ([`Base64Url`],
//! [`Base64UrlUnpadded`]), and the `crypt(3)` and bcrypt orderings
//! ([`Base64Crypt`], [`Base64Bcrypt`]).  All share a single verified
//! encode/decode implementation, parameterized by a [`variant::Variant`].

pub mod bcrypt;
pub mod crypt;
pub mod decoder;
pub mod encoder;
pub mod errors;
pub mod model;
pub mod pem;
pub mod standard;
pub mod url;
pub mod variant;

pub use crate::bcrypt::Base64Bcrypt;
pub use crate::crypt::Base64Crypt;
pub use crate::decoder::decode;
pub use crate::decoder::decode_in_place;
pub use crate::decoder::decode_vec;
pub use crate::decoder::decoded_len;
pub use crate::decoder::Decoder;
pub use crate::encoder::encode;
pub use crate::encoder::encode_vec;
pub use crate::encoder::encoded_len;
pub use crate::encoder::Encoder;
pub use crate::errors::Error;
pub use crate::errors::InvalidEncodingError;
pub use crate::errors::InvalidLengthError;
pub use crate::standard::Base64;
pub use crate::standard::Base64Unpadded;
pub use crate::url::Base64Url;
pub use crate::url::Base64UrlUnpadded;
pub use crate::variant::Variant;
