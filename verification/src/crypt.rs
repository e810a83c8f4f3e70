//! The `crypt(3)` alphabet (`.`, `/`, `0-9`, `A-Z`, `a-z`), always unpadded.

use vstd::prelude::*;
use crate::variant::{match_range_ct, Variant, PAD};

verus! {

/// The symbol for 6-bit value `v` in the `crypt(3)` ordering.
pub open spec fn crypt_char_of(v: int) -> u8 {
    if 0 <= v < 12 {
        (46 + v) as u8  // '.', '/', '0'..='9'
    } else if 12 <= v < 38 {
        (53 + v) as u8  // 'A'..='Z'
    } else {
        (59 + v) as u8  // 'a'..='z'
    }
}

/// The 6-bit value of symbol `c` in the `crypt(3)` ordering, or -1.
pub open spec fn crypt_val_of(c: u8) -> int {
    if 46 <= c <= 57 {
        c - 46
    } else if 65 <= c <= 90 {
        c - 53
    } else if 97 <= c <= 122 {
        c - 59
    } else {
        -1
    }
}

pub proof fn crypt_alphabet_facts()
    ensures
        forall|v: int| 0 <= v < 64 ==> crypt_val_of(#[trigger] crypt_char_of(v)) == v,
        forall|c: u8| -1 <= #[trigger] crypt_val_of(c) < 64,
        forall|c: u8| crypt_val_of(c) >= 0 ==> crypt_char_of(#[trigger] crypt_val_of(c)) == c,
        forall|v: int| 0 <= v < 64 ==> #[trigger] crypt_char_of(v) != PAD,
{
}

/// Branchless symbol lookup for the `crypt(3)` ordering.
pub fn crypt_encode_6bits(src: u8) -> (r: u8)
    requires
        src < 64,
    ensures
        r == crypt_char_of(src as int),
{
    let mut diff: i16 = 46;
    diff = diff + match_range_ct(src, 12, 63, 7);
    diff = diff + match_range_ct(src, 38, 63, 6);
    (src as i16 + diff) as u8
}

/// Branchless value lookup for the `crypt(3)` ordering.
pub fn crypt_decode_6bits(src: u8) -> (r: i16)
    ensures
        r == crypt_val_of(src),
{
    let mut res: i16 = -1;
    res = res + match_range_ct(src, 46, 57, src as i16 - 45);
    res = res + match_range_ct(src, 65, 90, src as i16 - 52);
    res = res + match_range_ct(src, 97, 122, src as i16 - 58);
    res
}

/// `crypt(3)`-ordered Base64, never padded.
pub struct Base64Crypt;

impl Variant for Base64Crypt {
    open spec fn padded() -> bool {
        false
    }

    open spec fn char_of(v: int) -> u8 {
        crypt_char_of(v)
    }

    open spec fn val_of(c: u8) -> int {
        crypt_val_of(c)
    }

    proof fn alphabet_facts() {
        crypt_alphabet_facts();
    }

    fn is_padded() -> (r: bool) {
        false
    }

    fn encode_6bits(src: u8) -> (r: u8) {
        crypt_encode_6bits(src)
    }

    fn decode_6bits(src: u8) -> (r: i16) {
        crypt_decode_6bits(src)
    }
}

} // verus!
