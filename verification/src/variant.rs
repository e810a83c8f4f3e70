//! The variant abstraction: a 64-symbol alphabet plus a padding policy,
//! together with the branchless arithmetic primitives every alphabet's
//! symbol mapping is built from.

use vstd::prelude::*;

verus! {

/// The padding symbol `=`.
pub const PAD: u8 = 61;

/// One Base64 variant: an ordered 64-symbol alphabet and a padding policy.
///
/// `char_of` names the symbol standing for each 6-bit value (the alphabet in
/// order); `val_of` names the 6-bit value of a symbol, or -1 for a symbol
/// outside the alphabet.  `alphabet_facts` proves that the two are inverse,
/// that `val_of` stays in range, and that the padding symbol is never part
/// of the alphabet.
pub trait Variant {
    /// Whether this variant pads its output to a 4-symbol boundary.
    spec fn padded() -> bool;

    /// The symbol standing for the 6-bit value `v`, for `0 <= v < 64`.
    spec fn char_of(v: int) -> u8;

    /// The 6-bit value of symbol `c`, or -1 when `c` is outside the alphabet.
    spec fn val_of(c: u8) -> int;

    /// The well-formedness of the alphabet: `char_of` and `val_of` are
    /// mutually inverse, values stay in `[-1, 64)`, and `=` is no symbol.
    proof fn alphabet_facts()
        ensures
            forall|v: int| 0 <= v < 64 ==> Self::val_of(#[trigger] Self::char_of(v)) == v,
            forall|c: u8| -1 <= #[trigger] Self::val_of(c) < 64,
            forall|c: u8| Self::val_of(c) >= 0 ==> Self::char_of(#[trigger] Self::val_of(c)) == c,
            forall|v: int| 0 <= v < 64 ==> #[trigger] Self::char_of(v) != PAD,
    ;

    /// The padding policy, as a runtime value: resolved once per call, never
    /// per symbol.
    fn is_padded() -> (r: bool)
        ensures
            r == Self::padded(),
    ;

    /// Branchless mapping from a 6-bit value to its symbol.
    fn encode_6bits(src: u8) -> (r: u8)
        requires
            src < 64,
        ensures
            r == Self::char_of(src as int),
    ;

    /// Branchless mapping from a symbol to its 6-bit value, or -1.
    fn decode_6bits(src: u8) -> (r: i16)
        ensures
            r == Self::val_of(src),
    ;
}

/// Branchless range gate: yields `ret_on_match` when `lo <= input <= hi` and
/// 0 otherwise, computed by sign-bit arithmetic with no data-dependent branch.
pub fn match_range_ct(input: u8, lo: u8, hi: u8, ret_on_match: i16) -> (r: i16)
    ensures
        r == if lo <= input && input <= hi {
            ret_on_match
        } else {
            0i16
        },
{
    let below: i16 = lo as i16 - 1 - input as i16;
    let above: i16 = input as i16 - hi as i16 - 1;
    let mask: i16 = (below & above) >> 8;
    let r: i16 = mask & ret_on_match;
    proof {
        assert(((((lo as i16 - 1 - input as i16) as i16) & ((input as i16 - hi as i16 - 1) as i16))
            >> 8) & ret_on_match == (if lo <= input && input <= hi {
            ret_on_match
        } else {
            0i16
        })) by (bit_vector);
    }
    r
}

/// Branchless equality gate: 1 when `input == target`, else 0.
pub fn match_eq_ct(input: u8, target: u8) -> (r: i16)
    ensures
        r == if input == target {
            1i16
        } else {
            0i16
        },
{
    match_range_ct(input, target, target, 1)
}

} // verus!
