//! One-shot encode/decode behaviour: concrete scenarios, length formulas,
//! and the error cases, for every variant.

use base64ct::{
    decode, decode_in_place, decode_vec, decoded_len, encode, encode_vec, encoded_len, Base64,
    Base64Bcrypt, Base64Crypt, Base64Unpadded, Base64Url, Base64UrlUnpadded, Error,
    InvalidLengthError,
};

#[test]
fn encode_single_zero_byte_padded() {
    assert_eq!(encode_vec::<Base64>(&[0x00]), b"AA==");
}

#[test]
fn encode_single_zero_byte_unpadded() {
    assert_eq!(encode_vec::<Base64Unpadded>(&[0x00]), b"AA");
}

#[test]
fn decode_single_zero_byte_padded() {
    assert_eq!(decode_vec::<Base64>(b"AA=="), Ok(vec![0x00]));
}

#[test]
fn decode_unpadded_length_under_padded_variant() {
    // length 2 is not a multiple of 4
    assert_eq!(decode_vec::<Base64>(b"AA"), Err(Error::InvalidLength));
}

#[test]
fn encode_example_bytestring() {
    let bytes = b"example bytestring!";
    let encoded = encode_vec::<Base64>(bytes);
    assert_eq!(encoded, b"ZXhhbXBsZSBieXRlc3RyaW5nIQ==");
    assert_eq!(decode_vec::<Base64>(&encoded), Ok(bytes.to_vec()));
}

#[test]
fn decode_padded_text_under_unpadded_variant() {
    // the trailing `=` is outside the unpadded alphabet
    assert_eq!(
        decode_vec::<Base64Unpadded>(b"ZXhhbXBsZSBieXRlc3RyaW5nIQ="),
        Err(Error::InvalidEncoding)
    );
}

#[test]
fn encode_into_buffer() {
    let bytes = b"example bytestring!";
    let mut buf = vec![0u8; 128];
    assert!(encoded_len::<Base64>(bytes) <= buf.len());
    let n = encode::<Base64>(bytes, &mut buf).unwrap();
    assert_eq!(&buf[..n], b"ZXhhbXBsZSBieXRlc3RyaW5nIQ==");
    let mut dec = vec![0u8; 128];
    let m = decode::<Base64>(&buf[..n], &mut dec).unwrap();
    assert_eq!(&dec[..m], bytes);
}

#[test]
fn encode_buffer_too_small() {
    let mut buf = vec![0u8; 3];
    assert_eq!(encode::<Base64>(&[1, 2, 3], &mut buf), Err(InvalidLengthError));
    // untouched on failure
    assert_eq!(buf, vec![0u8; 3]);
}

#[test]
fn decode_buffer_too_small() {
    let mut buf = vec![0u8; 2];
    assert_eq!(decode::<Base64>(b"QUJD", &mut buf), Err(Error::InvalidLength));
}

#[test]
fn encoded_len_formulas() {
    for (n, padded, unpadded) in [
        (0usize, 0usize, 0usize),
        (1, 4, 2),
        (2, 4, 3),
        (3, 4, 4),
        (4, 8, 6),
        (5, 8, 7),
        (6, 8, 8),
        (19, 28, 26),
    ] {
        let bytes = vec![0u8; n];
        assert_eq!(encoded_len::<Base64>(&bytes), padded);
        assert_eq!(encoded_len::<Base64Url>(&bytes), padded);
        assert_eq!(encoded_len::<Base64Unpadded>(&bytes), unpadded);
        assert_eq!(encoded_len::<Base64UrlUnpadded>(&bytes), unpadded);
        assert_eq!(encoded_len::<Base64Crypt>(&bytes), unpadded);
        assert_eq!(encoded_len::<Base64Bcrypt>(&bytes), unpadded);
    }
}

#[test]
fn decoded_len_is_reached_by_valid_input() {
    for bytes in [&b""[..], b"f", b"fo", b"foo", b"foob", b"fooba", b"foobar"] {
        let padded = encode_vec::<Base64>(bytes);
        let unpadded = encode_vec::<Base64Unpadded>(bytes);
        // upper bound for the padded variant, exact for the unpadded one
        assert!(decoded_len::<Base64>(&padded) >= bytes.len());
        assert_eq!(decoded_len::<Base64Unpadded>(&unpadded), bytes.len());
    }
}

#[test]
fn decode_rejects_symbol_outside_alphabet() {
    // at every position of a group
    assert_eq!(decode_vec::<Base64>(b"@AAA"), Err(Error::InvalidEncoding));
    assert_eq!(decode_vec::<Base64>(b"A!AA"), Err(Error::InvalidEncoding));
    assert_eq!(decode_vec::<Base64>(b"AA A"), Err(Error::InvalidEncoding));
    assert_eq!(decode_vec::<Base64>(b"AAA\n"), Err(Error::InvalidEncoding));
    // URL-safe symbols are invalid under the standard alphabet and vice versa
    assert_eq!(decode_vec::<Base64>(b"-_-_"), Err(Error::InvalidEncoding));
    assert_eq!(decode_vec::<Base64Url>(b"+/+/"), Err(Error::InvalidEncoding));
}

#[test]
fn decode_rejects_misplaced_padding() {
    // pad before a non-pad symbol in the final group
    assert_eq!(decode_vec::<Base64>(b"A=AA"), Err(Error::InvalidEncoding));
    assert_eq!(decode_vec::<Base64>(b"=AAA"), Err(Error::InvalidEncoding));
    // pad in a non-final group
    assert_eq!(decode_vec::<Base64>(b"AA==AAAA"), Err(Error::InvalidEncoding));
    // three pads can never be valid
    assert_eq!(decode_vec::<Base64>(b"A==="), Err(Error::InvalidEncoding));
    assert_eq!(decode_vec::<Base64>(b"===="), Err(Error::InvalidEncoding));
}

#[test]
fn decode_rejects_bad_lengths() {
    // padded: anything not a multiple of 4
    for text in [&b"A"[..], b"AB", b"ABC", b"ABCDE"] {
        assert_eq!(decode_vec::<Base64>(text), Err(Error::InvalidLength));
    }
    // unpadded: only remainder 1 is invalid
    assert_eq!(decode_vec::<Base64Unpadded>(b"A"), Err(Error::InvalidLength));
    assert_eq!(decode_vec::<Base64Unpadded>(b"ABCDE"), Err(Error::InvalidLength));
    assert!(decode_vec::<Base64Unpadded>(b"AB").is_ok());
    assert!(decode_vec::<Base64Unpadded>(b"ABC").is_ok());
    assert!(decode_vec::<Base64Unpadded>(b"ABCD").is_ok());
}

#[test]
fn decode_empty_is_empty() {
    assert_eq!(decode_vec::<Base64>(b""), Ok(vec![]));
    assert_eq!(decode_vec::<Base64Unpadded>(b""), Ok(vec![]));
    assert_eq!(encode_vec::<Base64>(b""), Vec::<u8>::new());
}

#[test]
fn decode_in_place_prefix_and_untouched_tail() {
    // "QUJD" decodes to "ABC"; the byte beyond the decoded prefix keeps its
    // original value, so the write cursor never passed the read cursor
    let mut buf = b"QUJD".to_vec();
    let n = decode_in_place::<Base64>(&mut buf).unwrap();
    assert_eq!(n, 3);
    assert_eq!(&buf[..n], b"ABC");
    assert_eq!(buf[3], b'D');
}

#[test]
fn decode_in_place_padded_tail() {
    let mut buf = b"ZXhhbXBsZSBieXRlc3RyaW5nIQ==".to_vec();
    let n = decode_in_place::<Base64>(&mut buf).unwrap();
    assert_eq!(&buf[..n], b"example bytestring!");
    // everything at and beyond the decoded length is untouched
    assert_eq!(&buf[n..], &b"ZXhhbXBsZSBieXRlc3RyaW5nIQ=="[n..]);
}

#[test]
fn decode_in_place_errors() {
    let mut buf = b"ABC".to_vec();
    assert_eq!(decode_in_place::<Base64>(&mut buf), Err(Error::InvalidLength));
    assert_eq!(buf, b"ABC".to_vec());
    let mut buf = b"AB=A".to_vec();
    assert_eq!(decode_in_place::<Base64>(&mut buf), Err(Error::InvalidEncoding));
}

#[test]
fn url_safe_symbols() {
    // 0xFB 0xFF uses both URL-safe specific symbols
    assert_eq!(encode_vec::<Base64UrlUnpadded>(&[0xFB, 0xFF]), b"-_8");
    assert_eq!(encode_vec::<Base64Url>(&[0xFB, 0xFF]), b"-_8=");
    assert_eq!(decode_vec::<Base64Url>(b"-_8="), Ok(vec![0xFB, 0xFF]));
    assert_eq!(decode_vec::<Base64UrlUnpadded>(b"-_8"), Ok(vec![0xFB, 0xFF]));
}

#[test]
fn crypt_and_bcrypt_forbid_padding() {
    assert_eq!(decode_vec::<Base64Crypt>(b"AA=="), Err(Error::InvalidEncoding));
    assert_eq!(decode_vec::<Base64Bcrypt>(b"AA=="), Err(Error::InvalidEncoding));
}

#[test]
fn error_messages() {
    assert_eq!(Error::InvalidEncoding.message(), "invalid Base64 encoding");
    assert_eq!(Error::InvalidLength.message(), "invalid Base64 length");
}

#[test]
fn error_conversions() {
    assert_eq!(Error::from(InvalidLengthError), Error::InvalidLength);
    assert_eq!(
        Error::from(base64ct::InvalidEncodingError),
        Error::InvalidEncoding
    );
}
