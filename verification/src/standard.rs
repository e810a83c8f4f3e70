//! The RFC 4648 §4 alphabet (`A-Z`, `a-z`, `0-9`, `+`, `/`), in a padded and
//! an unpadded variant.

use vstd::prelude::*;
use crate::variant::{match_range_ct, Variant, PAD};

verus! {

/// The symbol for 6-bit value `v` in the RFC 4648 §4 alphabet.
pub open spec fn std_char_of(v: int) -> u8 {
    if 0 <= v < 26 {
        (65 + v) as u8  // 'A'..='Z'
    } else if 26 <= v < 52 {
        (71 + v) as u8  // 'a'..='z'
    } else if 52 <= v < 62 {
        (v - 4) as u8  // '0'..='9'
    } else if v == 62 {
        43u8  // '+'
    } else {
        47u8  // '/'
    }
}

/// The 6-bit value of symbol `c` in the RFC 4648 §4 alphabet, or -1.
pub open spec fn std_val_of(c: u8) -> int {
    if 65 <= c <= 90 {
        c - 65
    } else if 97 <= c <= 122 {
        c - 71
    } else if 48 <= c <= 57 {
        c + 4
    } else if c == 43 {
        62
    } else if c == 47 {
        63
    } else {
        -1
    }
}

pub proof fn std_alphabet_facts()
    ensures
        forall|v: int| 0 <= v < 64 ==> std_val_of(#[trigger] std_char_of(v)) == v,
        forall|c: u8| -1 <= #[trigger] std_val_of(c) < 64,
        forall|c: u8| std_val_of(c) >= 0 ==> std_char_of(#[trigger] std_val_of(c)) == c,
        forall|v: int| 0 <= v < 64 ==> #[trigger] std_char_of(v) != PAD,
{
}

/// Branchless symbol lookup for the RFC 4648 §4 alphabet.
pub fn std_encode_6bits(src: u8) -> (r: u8)
    requires
        src < 64,
    ensures
        r == std_char_of(src as int),
{
    let mut diff: i16 = 65;
    diff = diff + match_range_ct(src, 26, 63, 6);
    diff = diff - match_range_ct(src, 52, 63, 75);
    diff = diff - match_range_ct(src, 62, 63, 15);
    diff = diff + match_range_ct(src, 63, 63, 3);
    (src as i16 + diff) as u8
}

/// Branchless value lookup for the RFC 4648 §4 alphabet.
pub fn std_decode_6bits(src: u8) -> (r: i16)
    ensures
        r == std_val_of(src),
{
    let mut res: i16 = -1;
    res = res + match_range_ct(src, 65, 90, src as i16 - 64);
    res = res + match_range_ct(src, 97, 122, src as i16 - 70);
    res = res + match_range_ct(src, 48, 57, src as i16 + 5);
    res = res + match_range_ct(src, 43, 43, 63);
    res = res + match_range_ct(src, 47, 47, 64);
    res
}

/// Standard Base64 with `=` padding (RFC 4648 §4).
pub struct Base64;

impl Variant for Base64 {
    open spec fn padded() -> bool {
        true
    }

    open spec fn char_of(v: int) -> u8 {
        std_char_of(v)
    }

    open spec fn val_of(c: u8) -> int {
        std_val_of(c)
    }

    proof fn alphabet_facts() {
        std_alphabet_facts();
    }

    fn is_padded() -> (r: bool) {
        true
    }

    fn encode_6bits(src: u8) -> (r: u8) {
        std_encode_6bits(src)
    }

    fn decode_6bits(src: u8) -> (r: i16) {
        std_decode_6bits(src)
    }
}

/// Standard Base64 without padding (RFC 4648 §4, §3.2).
pub struct Base64Unpadded;

impl Variant for Base64Unpadded {
    open spec fn padded() -> bool {
        false
    }

    open spec fn char_of(v: int) -> u8 {
        std_char_of(v)
    }

    open spec fn val_of(c: u8) -> int {
        std_val_of(c)
    }

    proof fn alphabet_facts() {
        std_alphabet_facts();
    }

    fn is_padded() -> (r: bool) {
        false
    }

    fn encode_6bits(src: u8) -> (r: u8) {
        std_encode_6bits(src)
    }

    fn decode_6bits(src: u8) -> (r: i16) {
        std_decode_6bits(src)
    }
}

} // verus!
