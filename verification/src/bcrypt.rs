//! The bcrypt alphabet (`.`, `/`, `A-Z`, `a-z`, `0-9`), always unpadded.

use vstd::prelude::*;
use crate::variant::{match_range_ct, Variant, PAD};

verus! {

/// The symbol for 6-bit value `v` in the bcrypt ordering.
pub open spec fn bcrypt_char_of(v: int) -> u8 {
    if 0 <= v < 2 {
        (46 + v) as u8  // '.', '/'
    } else if 2 <= v < 28 {
        (63 + v) as u8  // 'A'..='Z'
    } else if 28 <= v < 54 {
        (69 + v) as u8  // 'a'..='z'
    } else {
        (v - 6) as u8  // '0'..='9'
    }
}

/// The 6-bit value of symbol `c` in the bcrypt ordering, or -1.
pub open spec fn bcrypt_val_of(c: u8) -> int {
    if 46 <= c <= 47 {
        c - 46
    } else if 65 <= c <= 90 {
        c - 63
    } else if 97 <= c <= 122 {
        c - 69
    } else if 48 <= c <= 57 {
        c + 6
    } else {
        -1
    }
}

pub proof fn bcrypt_alphabet_facts()
    ensures
        forall|v: int| 0 <= v < 64 ==> bcrypt_val_of(#[trigger] bcrypt_char_of(v)) == v,
        forall|c: u8| -1 <= #[trigger] bcrypt_val_of(c) < 64,
        forall|c: u8| bcrypt_val_of(c) >= 0 ==> bcrypt_char_of(#[trigger] bcrypt_val_of(c)) == c,
        forall|v: int| 0 <= v < 64 ==> #[trigger] bcrypt_char_of(v) != PAD,
{
}

/// Branchless symbol lookup for the bcrypt ordering.
pub fn bcrypt_encode_6bits(src: u8) -> (r: u8)
    requires
        src < 64,
    ensures
        r == bcrypt_char_of(src as int),
{
    let mut diff: i16 = 46;
    diff = diff + match_range_ct(src, 2, 63, 17);
    diff = diff + match_range_ct(src, 28, 63, 6);
    diff = diff - match_range_ct(src, 54, 63, 75);
    (src as i16 + diff) as u8
}

/// Branchless value lookup for the bcrypt ordering.
pub fn bcrypt_decode_6bits(src: u8) -> (r: i16)
    ensures
        r == bcrypt_val_of(src),
{
    let mut res: i16 = -1;
    res = res + match_range_ct(src, 46, 47, src as i16 - 45);
    res = res + match_range_ct(src, 65, 90, src as i16 - 62);
    res = res + match_range_ct(src, 97, 122, src as i16 - 68);
    res = res + match_range_ct(src, 48, 57, src as i16 + 7);
    res
}

/// bcrypt-ordered Base64, never padded.
pub struct Base64Bcrypt;

impl Variant for Base64Bcrypt {
    open spec fn padded() -> bool {
        false
    }

    open spec fn char_of(v: int) -> u8 {
        bcrypt_char_of(v)
    }

    open spec fn val_of(c: u8) -> int {
        bcrypt_val_of(c)
    }

    proof fn alphabet_facts() {
        bcrypt_alphabet_facts();
    }

    fn is_padded() -> (r: bool) {
        false
    }

    fn encode_6bits(src: u8) -> (r: u8) {
        bcrypt_encode_6bits(src)
    }

    fn decode_6bits(src: u8) -> (r: i16) {
        bcrypt_decode_6bits(src)
    }
}

} // verus!
