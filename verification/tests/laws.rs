//! Concrete instances of the codec-wide laws (the general statements are
//! proved in the library itself): round trips, canonical re-encoding, and
//! the exact alphabet orderings.

use base64ct::{
    decode_vec, encode_vec, Base64, Base64Bcrypt, Base64Crypt, Base64Unpadded, Base64Url,
    Base64UrlUnpadded,
};

fn sample_inputs() -> Vec<Vec<u8>> {
    let mut v: Vec<Vec<u8>> = vec![
        vec![],
        vec![0x00],
        vec![0xFF],
        vec![0x00, 0x00],
        vec![0xDE, 0xAD, 0xBE, 0xEF],
        b"example bytestring!".to_vec(),
        (0u8..=255).collect(),
    ];
    // every 6-bit value in the leading position
    for i in 0..64u8 {
        v.push(vec![i << 2, i, i.wrapping_mul(7)]);
    }
    v
}

#[test]
fn round_trip_standard() {
    for b in sample_inputs() {
        assert_eq!(decode_vec::<Base64>(&encode_vec::<Base64>(&b)), Ok(b.clone()));
        assert_eq!(
            decode_vec::<Base64Unpadded>(&encode_vec::<Base64Unpadded>(&b)),
            Ok(b)
        );
    }
}

#[test]
fn round_trip_url() {
    for b in sample_inputs() {
        assert_eq!(decode_vec::<Base64Url>(&encode_vec::<Base64Url>(&b)), Ok(b.clone()));
        assert_eq!(
            decode_vec::<Base64UrlUnpadded>(&encode_vec::<Base64UrlUnpadded>(&b)),
            Ok(b)
        );
    }
}

#[test]
fn round_trip_crypt_and_bcrypt() {
    for b in sample_inputs() {
        assert_eq!(decode_vec::<Base64Crypt>(&encode_vec::<Base64Crypt>(&b)), Ok(b.clone()));
        assert_eq!(decode_vec::<Base64Bcrypt>(&encode_vec::<Base64Bcrypt>(&b)), Ok(b));
    }
}

#[test]
fn canonical_reencode() {
    for b in sample_inputs() {
        let t = encode_vec::<Base64>(&b);
        assert_eq!(encode_vec::<Base64>(&decode_vec::<Base64>(&t).unwrap()), t);
        let t = encode_vec::<Base64Bcrypt>(&b);
        assert_eq!(
            encode_vec::<Base64Bcrypt>(&decode_vec::<Base64Bcrypt>(&t).unwrap()),
            t
        );
    }
}

/// The first symbol of the encoding of `[v << 2, 0, 0]` is the symbol for
/// the 6-bit value `v`: reading it for `v = 0..64` spells the alphabet.
fn alphabet_of<V: base64ct::Variant>() -> Vec<u8> {
    let mut table = Vec::new();
    for v in 0..64u8 {
        let enc = encode_vec::<V>(&[v << 2, 0, 0]);
        table.push(enc[0]);
    }
    table
}

#[test]
fn alphabet_standard_is_rfc4648_section_4() {
    let expect = b"ABCDEFGHIJKLMNOPQRSTUVWXYZabcdefghijklmnopqrstuvwxyz0123456789+/";
    assert_eq!(alphabet_of::<Base64>(), expect.to_vec());
    assert_eq!(alphabet_of::<Base64Unpadded>(), expect.to_vec());
}

#[test]
fn alphabet_url_is_rfc4648_section_5() {
    let expect = b"ABCDEFGHIJKLMNOPQRSTUVWXYZabcdefghijklmnopqrstuvwxyz0123456789-_";
    assert_eq!(alphabet_of::<Base64Url>(), expect.to_vec());
    assert_eq!(alphabet_of::<Base64UrlUnpadded>(), expect.to_vec());
}

#[test]
fn alphabet_crypt_ordering() {
    let expect = b"./0123456789ABCDEFGHIJKLMNOPQRSTUVWXYZabcdefghijklmnopqrstuvwxyz";
    assert_eq!(alphabet_of::<Base64Crypt>(), expect.to_vec());
}

#[test]
fn alphabet_bcrypt_ordering() {
    let expect = b"./ABCDEFGHIJKLMNOPQRSTUVWXYZabcdefghijklmnopqrstuvwxyz0123456789";
    assert_eq!(alphabet_of::<Base64Bcrypt>(), expect.to_vec());
}

#[test]
fn symbol_decode_is_position_independent() {
    // a bad symbol is rejected wherever it stands
    for pos in 0..8 {
        let mut text = b"AAAAAAAA".to_vec();
        text[pos] = b'*';
        assert_eq!(decode_vec::<Base64>(&text), Err(base64ct::Error::InvalidEncoding));
    }
}
