//! The incremental encoder: feeding in arbitrary pieces, then finishing,
//! emits exactly the one-shot encoding.

use base64ct::{encode_vec, Base64, Base64Unpadded, Decoder, Encoder, Error};

fn stream_decode<V: base64ct::Variant>(pieces: &[&[u8]]) -> Result<Vec<u8>, Error> {
    let mut dec = Decoder::<V>::new();
    let mut out = Vec::new();
    for piece in pieces {
        out.extend_from_slice(&dec.feed(piece)?);
    }
    out.extend_from_slice(&dec.finish()?);
    Ok(out)
}

fn stream_encode<V: base64ct::Variant>(pieces: &[&[u8]]) -> Vec<u8> {
    let mut enc = Encoder::<V>::new();
    let mut out = Vec::new();
    for piece in pieces {
        out.extend_from_slice(&enc.feed(piece));
    }
    out.extend_from_slice(&enc.finish());
    out
}

#[test]
fn stream_matches_one_shot_padded() {
    let bytes = b"example bytestring!";
    for split in 0..bytes.len() {
        let out = stream_encode::<Base64>(&[&bytes[..split], &bytes[split..]]);
        assert_eq!(out, b"ZXhhbXBsZSBieXRlc3RyaW5nIQ==");
    }
}

#[test]
fn stream_matches_one_shot_unpadded() {
    let bytes = b"example bytestring!";
    let expect = encode_vec::<Base64Unpadded>(bytes);
    let mut pieces: Vec<&[u8]> = Vec::new();
    for chunk in bytes.chunks(1) {
        pieces.push(chunk);
    }
    assert_eq!(stream_encode::<Base64Unpadded>(&pieces), expect);
}

#[test]
fn stream_empty_feeds() {
    let out = stream_encode::<Base64>(&[b"", b"", b""]);
    assert_eq!(out, Vec::<u8>::new());
    let out = stream_encode::<Base64>(&[b"", b"\x00", b""]);
    assert_eq!(out, b"AA==".to_vec());
}

#[test]
fn stream_emits_groups_eagerly() {
    let mut enc = Encoder::<Base64>::new();
    // two bytes complete no group: nothing may be emitted yet
    assert_eq!(enc.feed(b"ab"), Vec::<u8>::new());
    // one more byte completes the first group
    assert_eq!(enc.feed(b"c"), b"YWJj".to_vec());
    assert_eq!(enc.finish(), Vec::<u8>::new());
}

#[test]
fn stream_decode_matches_one_shot_padded() {
    let text = b"ZXhhbXBsZSBieXRlc3RyaW5nIQ==";
    for split in 0..text.len() {
        let out = stream_decode::<Base64>(&[&text[..split], &text[split..]]).unwrap();
        assert_eq!(out, b"example bytestring!");
    }
}

#[test]
fn stream_decode_matches_one_shot_unpadded() {
    let text = b"ZXhhbXBsZSBieXRlc3RyaW5nIQ";
    let mut pieces: Vec<&[u8]> = Vec::new();
    for chunk in text.chunks(1) {
        pieces.push(chunk);
    }
    assert_eq!(stream_decode::<Base64Unpadded>(&pieces).unwrap(), b"example bytestring!");
}

#[test]
fn stream_decode_rejects_symbols_after_padding() {
    let mut dec = Decoder::<Base64>::new();
    assert_eq!(dec.feed(b"QQ=="), Ok(vec![0x41]));
    assert_eq!(dec.feed(b"QUJD"), Err(Error::InvalidEncoding));
}

#[test]
fn stream_decode_rejects_mid_stream_padding() {
    let mut dec = Decoder::<Base64>::new();
    assert_eq!(dec.feed(b"QQ==QUJD"), Err(Error::InvalidEncoding));
}

#[test]
fn stream_decode_defers_length_check_to_finish() {
    let mut dec = Decoder::<Base64>::new();
    assert_eq!(dec.feed(b"QUJDQ"), Ok(vec![b'A', b'B', b'C']));
    assert_eq!(dec.finish(), Err(Error::InvalidLength));
}

#[test]
fn stream_decode_defers_alphabet_check_to_finish() {
    let mut dec = Decoder::<Base64>::new();
    // an invalid symbol does not stop feeding: it is reported at the end
    let fed = dec.feed(b"QUJ*").unwrap();
    assert_eq!(fed.len(), 3);
    assert_eq!(dec.finish(), Err(Error::InvalidEncoding));
}

#[test]
fn stream_decode_empty() {
    assert_eq!(stream_decode::<Base64>(&[b"", b""]).unwrap(), Vec::<u8>::new());
}
