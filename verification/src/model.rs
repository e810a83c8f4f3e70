//! The mathematical model of the codec: what a byte sequence encodes to and
//! what a symbol sequence decodes to, stated over `Seq<u8>`.  Every
//! executable operation's contract speaks in terms of these functions, and
//! the codec-wide laws (round trip, canonical re-encode, length formulas)
//! are proved here once, for every variant.

use vstd::prelude::*;
use vstd::arithmetic::div_mod::{
    lemma_fundamental_div_mod, lemma_fundamental_div_mod_converse_div,
    lemma_fundamental_div_mod_converse_mod,
};
use crate::variant::{Variant, PAD};

verus! {

/// The 6-bit values of a byte sequence: each 3-byte group yields 4 values, a
/// trailing byte yields 2, two trailing bytes yield 3.
pub open spec fn vals_of(b: Seq<u8>) -> Seq<u8>
    decreases b.len(),
{
    if b.len() == 0 {
        Seq::empty()
    } else if b.len() == 1 {
        seq![b[0] >> 2, (b[0] & 3) << 4]
    } else if b.len() == 2 {
        seq![b[0] >> 2, ((b[0] & 3) << 4) | (b[1] >> 4), (b[1] & 15) << 2]
    } else {
        seq![
            b[0] >> 2,
            ((b[0] & 3) << 4) | (b[1] >> 4),
            ((b[1] & 15) << 2) | (b[2] >> 6),
            b[2] & 63,
        ] + vals_of(b.skip(3))
    }
}

/// The bytes a 6-bit value sequence decodes to: each 4-value group yields 3
/// bytes, 2 trailing values yield 1 byte, 3 trailing values yield 2.  (A
/// single trailing value cannot occur in a valid encoding and yields nothing.)
pub open spec fn bytes_of(vs: Seq<u8>) -> Seq<u8>
    decreases vs.len(),
{
    if vs.len() < 2 {
        Seq::empty()
    } else if vs.len() == 2 {
        seq![(vs[0] << 2) | (vs[1] >> 4)]
    } else if vs.len() == 3 {
        seq![(vs[0] << 2) | (vs[1] >> 4), ((vs[1] & 15) << 4) | (vs[2] >> 2)]
    } else {
        seq![
            (vs[0] << 2) | (vs[1] >> 4),
            ((vs[1] & 15) << 4) | (vs[2] >> 2),
            ((vs[2] & 3) << 6) | vs[3],
        ] + bytes_of(vs.skip(4))
    }
}

/// The symbols (before padding) that `b` encodes to under variant `V`.
pub open spec fn encode_syms<V: Variant>(b: Seq<u8>) -> Seq<u8> {
    Seq::new(vals_of(b).len(), |i: int| V::char_of(vals_of(b)[i] as int))
}

/// How many `=` symbols a padded variant appends for input length `n`.
pub open spec fn pad_len_of(n: nat) -> nat {
    if n % 3 == 0 {
        0
    } else {
        (3 - n % 3) as nat
    }
}

/// The full encoding of `b` under variant `V`, padding included.
pub open spec fn encode_of<V: Variant>(b: Seq<u8>) -> Seq<u8> {
    if V::padded() {
        encode_syms::<V>(b) + Seq::new(pad_len_of(b.len()), |_i: int| PAD)
    } else {
        encode_syms::<V>(b)
    }
}

/// Symbols in the final partial group for `r` trailing bytes (`r = n % 3`).
pub open spec fn tail_syms_of(r: int) -> nat {
    if r == 0 {
        0
    } else if r == 1 {
        2
    } else {
        3
    }
}

/// The exact length of the encoding of `n` bytes: `ceil(n/3)*4` when padded,
/// `ceil(n*4/3)` when unpadded.
pub open spec fn encoded_len_of(n: nat, padded: bool) -> nat {
    if padded {
        4 * ((n + 2) / 3)
    } else {
        4 * (n / 3) + tail_syms_of((n % 3) as int)
    }
}

/// Whether an input text length fits the variant: padded variants need a
/// multiple of 4; unpadded variants reject only remainder 1, since a single
/// leftover symbol cannot span a byte boundary.
pub open spec fn length_ok(n: nat, padded: bool) -> bool {
    if padded {
        n % 4 == 0
    } else {
        n % 4 != 1
    }
}

/// How many trailing `=` symbols are stripped before decoding: at most two,
/// and only from the very end of the text.
pub open spec fn strip_count(t: Seq<u8>) -> nat {
    if t.len() >= 1 && t[t.len() - 1] == PAD {
        if t.len() >= 2 && t[t.len() - 2] == PAD {
            2
        } else {
            1
        }
    } else {
        0
    }
}

/// The symbol text that actually carries data: the input minus trailing
/// padding for a padded variant, the input itself for an unpadded one.
pub open spec fn body_of<V: Variant>(t: Seq<u8>) -> Seq<u8> {
    if V::padded() {
        t.take(t.len() - strip_count(t))
    } else {
        t
    }
}

/// Whether every data-carrying symbol of `t` belongs to `V`'s alphabet.
/// Since `=` is in no alphabet, this also rejects padding anywhere it was
/// not stripped: before the end, or where the variant forbids it.
pub open spec fn syms_ok<V: Variant>(t: Seq<u8>) -> bool {
    forall|i: int| 0 <= i < body_of::<V>(t).len() ==> V::val_of(#[trigger] body_of::<V>(t)[i]) >= 0
}

/// The 6-bit value a decoder derives from symbol `c`: its alphabet value,
/// or the all-ones 6-bit pattern for a symbol outside the alphabet (the
/// branchless engine masks the -1 sentinel with 63).
pub open spec fn sym_val_u8<V: Variant>(c: u8) -> u8 {
    if V::val_of(c) >= 0 {
        V::val_of(c) as u8
    } else {
        63u8
    }
}

/// The 6-bit values of the data-carrying symbols of `t`.
pub open spec fn body_vals_of<V: Variant>(t: Seq<u8>) -> Seq<u8> {
    Seq::new(body_of::<V>(t).len(), |i: int| sym_val_u8::<V>(body_of::<V>(t)[i]))
}

/// Whether some complete 4-symbol group of `t` ends in padding while more
/// symbols follow it: such a text can never become valid, however it is
/// extended, since padding is lawful only in the terminal group.
pub open spec fn pad_blocked(t: Seq<u8>) -> bool {
    exists|g: int| 0 <= g && 4 * g + 4 < t.len() && #[trigger] t[4 * g + 3] == PAD
}

/// The bytes that a valid text `t` decodes to under variant `V`.
pub open spec fn decode_of<V: Variant>(t: Seq<u8>) -> Seq<u8> {
    bytes_of(body_vals_of::<V>(t))
}

/// Bytes in the final partial group for `r` trailing symbols (`r = m % 4`).
pub open spec fn tail_bytes_of(r: int) -> nat {
    if r == 2 {
        1
    } else if r == 3 {
        2
    } else {
        0
    }
}

/// The exact number of bytes a valid body of `m` symbols decodes to.
pub open spec fn decoded_body_len_of(m: nat) -> nat {
    3 * (m / 4) + tail_bytes_of((m % 4) as int)
}

/// The upper bound `decoded_len` reports for an input of `n` symbols:
/// `n/4*3` when padded (exact once padding is resolved), exact when unpadded.
pub open spec fn decoded_len_bound_of(n: nat, padded: bool) -> nat {
    if padded {
        3 * (n / 4)
    } else {
        decoded_body_len_of(n)
    }
}

/// `(d*q + r) / d == q` and `(d*q + r) % d == r` when `0 <= r < d`.
pub proof fn lemma_div_mod_small(q: int, r: int, d: int)
    requires
        d > 0,
        0 <= r < d,
    ensures
        (d * q + r) / d == q,
        (d * q + r) % d == r,
{
    assert(d * q + r == q * d + r) by (nonlinear_arith);
    lemma_fundamental_div_mod_converse_div(d * q + r, d, q, r);
    lemma_fundamental_div_mod_converse_mod(d * q + r, d, q, r);
}

/// All 6-bit values drawn from a 3-byte group lie below 64.
pub proof fn lemma_group_vals_bound(b0: u8, b1: u8, b2: u8)
    by (bit_vector)
    ensures
        (b0 >> 2) < 64,
        ((b0 & 3) << 4) < 64,
        (((b0 & 3) << 4) | (b1 >> 4)) < 64,
        ((b1 & 15) << 2) < 64,
        (((b1 & 15) << 2) | (b2 >> 6)) < 64,
        (b2 & 63) < 64,
{
}

/// `vals_of` has the unpadded encoded length, and every value is below 64.
pub proof fn lemma_vals_of_len(b: Seq<u8>)
    ensures
        vals_of(b).len() == encoded_len_of(b.len(), false),
        forall|i: int| 0 <= i < vals_of(b).len() ==> #[trigger] vals_of(b)[i] < 64,
    decreases b.len(),
{
    if b.len() == 0 {
        lemma_div_mod_small(0, 0, 3);
    } else if b.len() == 1 {
        lemma_div_mod_small(0, 1, 3);
        lemma_group_vals_bound(b[0], 0, 0);
    } else if b.len() == 2 {
        lemma_div_mod_small(0, 2, 3);
        lemma_group_vals_bound(b[0], b[1], 0);
    } else {
        let rest = b.skip(3);
        lemma_vals_of_len(rest);
        lemma_group_vals_bound(b[0], b[1], b[2]);
        lemma_fundamental_div_mod(rest.len() as int, 3);
        let q = rest.len() as int / 3;
        let r = rest.len() as int % 3;
        lemma_div_mod_small(q + 1, r, 3);
        assert(b.len() == 3 * (q + 1) + r);
    }
}

/// `vals_of` distributes over concatenation at a 3-byte boundary.
pub proof fn lemma_vals_of_append(a: Seq<u8>, b: Seq<u8>)
    requires
        a.len() % 3 == 0,
    ensures
        vals_of(a + b) == vals_of(a) + vals_of(b),
    decreases a.len(),
{
    if a.len() == 0 {
        assert(a + b =~= b);
        assert(vals_of(a) + vals_of(b) =~= vals_of(b));
    } else {
        lemma_fundamental_div_mod(a.len() as int, 3);
        assert(a.len() >= 3);
        let c = a + b;
        assert(c.len() >= 3);
        assert(c.skip(3) =~= a.skip(3) + b);
        lemma_fundamental_div_mod(a.len() as int - 3, 3);
        lemma_div_mod_small(a.len() as int / 3 - 1, 0, 3);
        assert(a.skip(3).len() % 3 == 0);
        lemma_vals_of_append(a.skip(3), b);
        assert(vals_of(c) =~= vals_of(a) + vals_of(b));
    }
}

/// `bytes_of` has the exact decoded body length.
pub proof fn lemma_bytes_of_len(vs: Seq<u8>)
    ensures
        bytes_of(vs).len() == decoded_body_len_of(vs.len()),
    decreases vs.len(),
{
    if vs.len() < 2 {
        lemma_div_mod_small(0, vs.len() as int, 4);
    } else if vs.len() == 2 {
        lemma_div_mod_small(0, 2, 4);
    } else if vs.len() == 3 {
        lemma_div_mod_small(0, 3, 4);
    } else {
        let rest = vs.skip(4);
        lemma_bytes_of_len(rest);
        lemma_fundamental_div_mod(rest.len() as int, 4);
        let q = rest.len() as int / 4;
        let r = rest.len() as int % 4;
        lemma_div_mod_small(q + 1, r, 4);
        assert(vs.len() == 4 * (q + 1) + r);
    }
}

/// `bytes_of` distributes over concatenation at a 4-value boundary.
pub proof fn lemma_bytes_of_append(a: Seq<u8>, b: Seq<u8>)
    requires
        a.len() % 4 == 0,
    ensures
        bytes_of(a + b) == bytes_of(a) + bytes_of(b),
    decreases a.len(),
{
    if a.len() == 0 {
        assert(a + b =~= b);
        assert(bytes_of(a) + bytes_of(b) =~= bytes_of(b));
    } else {
        lemma_fundamental_div_mod(a.len() as int, 4);
        assert(a.len() >= 4);
        let c = a + b;
        assert(c.len() >= 4);
        assert(c.skip(4) =~= a.skip(4) + b);
        lemma_fundamental_div_mod(a.len() as int - 4, 4);
        lemma_div_mod_small(a.len() as int / 4 - 1, 0, 4);
        assert(a.skip(4).len() % 4 == 0);
        lemma_bytes_of_append(a.skip(4), b);
        assert(bytes_of(c) =~= bytes_of(a) + bytes_of(b));
    }
}

/// Decoding the 6-bit values of any byte sequence gives the bytes back.
pub proof fn lemma_bytes_of_vals_of(b: Seq<u8>)
    ensures
        bytes_of(vals_of(b)) == b,
    decreases b.len(),
{
    if b.len() == 0 {
        assert(bytes_of(vals_of(b)) =~= b);
    } else if b.len() == 1 {
        let b0 = b[0];
        assert(((b0 >> 2) << 2) | (((b0 & 3) << 4) >> 4) == b0) by (bit_vector);
        assert(bytes_of(vals_of(b)) =~= b);
    } else if b.len() == 2 {
        let b0 = b[0];
        let b1 = b[1];
        assert(((b0 >> 2) << 2) | ((((b0 & 3) << 4) | (b1 >> 4)) >> 4) == b0) by (bit_vector);
        assert((((((b0 & 3) << 4) | (b1 >> 4)) & 15) << 4) | (((b1 & 15) << 2) >> 2) == b1)
            by (bit_vector);
        assert(bytes_of(vals_of(b)) =~= b);
    } else {
        let b0 = b[0];
        let b1 = b[1];
        let b2 = b[2];
        assert(((b0 >> 2) << 2) | ((((b0 & 3) << 4) | (b1 >> 4)) >> 4) == b0) by (bit_vector);
        assert((((((b0 & 3) << 4) | (b1 >> 4)) & 15) << 4) | (((((b1 & 15) << 2) | (b2 >> 6)))
            >> 2) == b1) by (bit_vector);
        assert((((((b1 & 15) << 2) | (b2 >> 6)) & 3) << 6) | (b2 & 63) == b2) by (bit_vector);
        lemma_bytes_of_vals_of(b.skip(3));
        let vs = vals_of(b);
        assert(vs.len() >= 4) by {
            lemma_vals_of_len(b.skip(3));
        }
        assert(vs.skip(4) =~= vals_of(b.skip(3)));
        assert(bytes_of(vs) =~= b);
    }
}

/// Splitting a byte sequence at a 3-byte boundary splits its values.
pub proof fn lemma_vals_of_split(b: Seq<u8>, k: int)
    requires
        0 <= 3 * k <= b.len(),
    ensures
        vals_of(b) == vals_of(b.take(3 * k)) + vals_of(b.skip(3 * k)),
{
    assert(b =~= b.take(3 * k) + b.skip(3 * k));
    lemma_div_mod_small(k, 0, 3);
    lemma_vals_of_append(b.take(3 * k), b.skip(3 * k));
}


/// The values of the `k`-th full 3-byte group, read off directly.
pub proof fn lemma_vals_of_group(b: Seq<u8>, k: int)
    requires
        0 <= k,
        3 * k + 3 <= b.len(),
    ensures
        vals_of(b).len() >= 4 * k + 4,
        vals_of(b)[4 * k] == b[3 * k] >> 2,
        vals_of(b)[4 * k + 1] == ((b[3 * k] & 3) << 4) | (b[3 * k + 1] >> 4),
        vals_of(b)[4 * k + 2] == ((b[3 * k + 1] & 15) << 2) | (b[3 * k + 2] >> 6),
        vals_of(b)[4 * k + 3] == b[3 * k + 2] & 63,
    decreases k,
{
    lemma_vals_of_len(b);
    lemma_fundamental_div_mod(b.len() as int, 3);
    if k == 0 {
    } else {
        let rest = b.skip(3);
        lemma_vals_of_group(rest, k - 1);
        assert(rest[3 * (k - 1)] == b[3 * k]);
        assert(rest[3 * (k - 1) + 1] == b[3 * k + 1]);
        assert(rest[3 * (k - 1) + 2] == b[3 * k + 2]);
        assert(vals_of(b)[4 * k] == vals_of(rest)[4 * (k - 1)]);
        assert(vals_of(b)[4 * k + 1] == vals_of(rest)[4 * (k - 1) + 1]);
        assert(vals_of(b)[4 * k + 2] == vals_of(rest)[4 * (k - 1) + 2]);
        assert(vals_of(b)[4 * k + 3] == vals_of(rest)[4 * (k - 1) + 3]);
    }
}

/// The values of the final partial group, read off directly (`k = len / 3`).
pub proof fn lemma_vals_of_tail(b: Seq<u8>, k: int)
    requires
        0 <= 3 * k <= b.len(),
        b.len() < 3 * k + 3,
    ensures
        b.len() as int % 3 == b.len() - 3 * k,
        b.len() == 3 * k ==> vals_of(b).len() == 4 * k,
        b.len() == 3 * k + 1 ==> vals_of(b).len() == 4 * k + 2 && vals_of(b)[4 * k] == b[3 * k]
            >> 2 && vals_of(b)[4 * k + 1] == (b[3 * k] & 3) << 4,
        b.len() == 3 * k + 2 ==> vals_of(b).len() == 4 * k + 3 && vals_of(b)[4 * k] == b[3 * k]
            >> 2 && vals_of(b)[4 * k + 1] == ((b[3 * k] & 3) << 4) | (b[3 * k + 1] >> 4)
            && vals_of(b)[4 * k + 2] == (b[3 * k + 1] & 15) << 2,
    decreases k,
{
    lemma_div_mod_small(k, b.len() - 3 * k, 3);
    lemma_vals_of_len(b);
    if k == 0 {
    } else {
        let rest = b.skip(3);
        lemma_vals_of_tail(rest, k - 1);
        if b.len() == 3 * k + 1 {
            assert(vals_of(b)[4 * k] == vals_of(rest)[4 * (k - 1)]);
            assert(vals_of(b)[4 * k + 1] == vals_of(rest)[4 * (k - 1) + 1]);
        } else if b.len() == 3 * k + 2 {
            assert(vals_of(b)[4 * k] == vals_of(rest)[4 * (k - 1)]);
            assert(vals_of(b)[4 * k + 1] == vals_of(rest)[4 * (k - 1) + 1]);
            assert(vals_of(b)[4 * k + 2] == vals_of(rest)[4 * (k - 1) + 2]);
        }
    }
}

/// Splitting a value sequence at a 4-value boundary splits its bytes.
pub proof fn lemma_bytes_of_split(vs: Seq<u8>, k: int)
    requires
        0 <= 4 * k <= vs.len(),
    ensures
        bytes_of(vs) == bytes_of(vs.take(4 * k)) + bytes_of(vs.skip(4 * k)),
{
    assert(vs =~= vs.take(4 * k) + vs.skip(4 * k));
    lemma_div_mod_small(k, 0, 4);
    lemma_bytes_of_append(vs.take(4 * k), vs.skip(4 * k));
}


/// The bytes of the `k`-th full 4-value group, read off directly.
pub proof fn lemma_bytes_of_group(vs: Seq<u8>, k: int)
    requires
        0 <= k,
        4 * k + 4 <= vs.len(),
    ensures
        bytes_of(vs).len() >= 3 * k + 3,
        bytes_of(vs)[3 * k] == (vs[4 * k] << 2) | (vs[4 * k + 1] >> 4),
        bytes_of(vs)[3 * k + 1] == ((vs[4 * k + 1] & 15) << 4) | (vs[4 * k + 2] >> 2),
        bytes_of(vs)[3 * k + 2] == ((vs[4 * k + 2] & 3) << 6) | vs[4 * k + 3],
    decreases k,
{
    lemma_bytes_of_len(vs);
    lemma_fundamental_div_mod(vs.len() as int, 4);
    if k == 0 {
    } else {
        let rest = vs.skip(4);
        lemma_bytes_of_group(rest, k - 1);
        assert(rest[4 * (k - 1)] == vs[4 * k]);
        assert(rest[4 * (k - 1) + 1] == vs[4 * k + 1]);
        assert(rest[4 * (k - 1) + 2] == vs[4 * k + 2]);
        assert(rest[4 * (k - 1) + 3] == vs[4 * k + 3]);
        assert(bytes_of(vs)[3 * k] == bytes_of(rest)[3 * (k - 1)]);
        assert(bytes_of(vs)[3 * k + 1] == bytes_of(rest)[3 * (k - 1) + 1]);
        assert(bytes_of(vs)[3 * k + 2] == bytes_of(rest)[3 * (k - 1) + 2]);
    }
}

/// The bytes of the final partial group, read off directly (`k = len / 4`).
pub proof fn lemma_bytes_of_tail(vs: Seq<u8>, k: int)
    requires
        0 <= 4 * k <= vs.len(),
        vs.len() < 4 * k + 4,
    ensures
        vs.len() as int % 4 == vs.len() - 4 * k,
        vs.len() == 4 * k ==> bytes_of(vs).len() == 3 * k,
        vs.len() == 4 * k + 1 ==> bytes_of(vs).len() == 3 * k,
        vs.len() == 4 * k + 2 ==> bytes_of(vs).len() == 3 * k + 1 && bytes_of(vs)[3 * k] == (
        vs[4 * k] << 2) | (vs[4 * k + 1] >> 4),
        vs.len() == 4 * k + 3 ==> bytes_of(vs).len() == 3 * k + 2 && bytes_of(vs)[3 * k] == (
        vs[4 * k] << 2) | (vs[4 * k + 1] >> 4) && bytes_of(vs)[3 * k + 1] == ((vs[4 * k + 1]
            & 15) << 4) | (vs[4 * k + 2] >> 2),
    decreases k,
{
    lemma_div_mod_small(k, vs.len() - 4 * k, 4);
    lemma_bytes_of_len(vs);
    if k == 0 {
    } else {
        let rest = vs.skip(4);
        lemma_bytes_of_tail(rest, k - 1);
        if vs.len() == 4 * k + 2 {
            assert(bytes_of(vs)[3 * k] == bytes_of(rest)[3 * (k - 1)]);
        } else if vs.len() == 4 * k + 3 {
            assert(bytes_of(vs)[3 * k] == bytes_of(rest)[3 * (k - 1)]);
            assert(bytes_of(vs)[3 * k + 1] == bytes_of(rest)[3 * (k - 1) + 1]);
        }
    }
}

/// The encoded length formula, related to the symbol and padding counts.
pub proof fn lemma_encode_of_len<V: Variant>(b: Seq<u8>)
    ensures
        encode_of::<V>(b).len() == encoded_len_of(b.len(), V::padded()),
        encode_syms::<V>(b).len() == encoded_len_of(b.len(), false),
        length_ok(encode_of::<V>(b).len(), V::padded()),
{
    lemma_vals_of_len(b);
    let n = b.len() as int;
    lemma_fundamental_div_mod(n, 3);
    let q = n / 3;
    let r = n % 3;
    if r == 0 {
        lemma_div_mod_small(q, 2, 3);
    } else if r == 1 {
        lemma_div_mod_small(q + 1, 0, 3);
    } else {
        lemma_div_mod_small(q + 1, 1, 3);
    }
    // the total length is a multiple of 4 when padded, and 4q + {0,2,3} when not
    if V::padded() {
        lemma_div_mod_small((n + 2) / 3, 0, 4);
    } else {
        lemma_div_mod_small(q, tail_syms_of(r) as int, 4);
    }
}

/// Round trip at the model level: encoding any byte sequence yields a text
/// of valid length, made of valid symbols, that decodes to the same bytes.
pub proof fn lemma_decode_of_encode_of<V: Variant>(b: Seq<u8>)
    ensures
        encode_of::<V>(b).len() == encoded_len_of(b.len(), V::padded()),
        length_ok(encode_of::<V>(b).len(), V::padded()),
        syms_ok::<V>(encode_of::<V>(b)),
        decode_of::<V>(encode_of::<V>(b)) == b,
{
    V::alphabet_facts();
    lemma_vals_of_len(b);
    lemma_encode_of_len::<V>(b);
    let syms = encode_syms::<V>(b);
    let t = encode_of::<V>(b);
    if V::padded() {
        let p = pad_len_of(b.len());
        assert(forall|i: int| 0 <= i < syms.len() ==> #[trigger] syms[i] != PAD);
        if p == 0 {
            assert(t =~= syms);
            assert(strip_count(t) == 0);
        } else {
            assert(t[t.len() - 1] == PAD);
            if p == 1 {
                assert(t[t.len() - 2] == syms[syms.len() - 1]);
                assert(strip_count(t) == 1);
            } else {
                assert(t[t.len() - 2] == PAD);
                assert(strip_count(t) == 2);
            }
        }
        assert(body_of::<V>(t) =~= syms);
    } else {
        assert(body_of::<V>(t) =~= syms);
    }
    assert(body_vals_of::<V>(t) =~= vals_of(b));
    lemma_bytes_of_vals_of(b);
}

/// Canonical re-encode at the model level: any text produced by `encode`
/// re-encodes, after decoding, to itself.
pub proof fn lemma_encode_of_decode_of<V: Variant>(t: Seq<u8>, b: Seq<u8>)
    requires
        t == encode_of::<V>(b),
    ensures
        encode_of::<V>(decode_of::<V>(t)) == t,
{
    lemma_decode_of_encode_of::<V>(b);
}

/// The decoded length is exactly the body-length formula, bounded by the
/// `decoded_len` report, and equal to it for an unpadded variant.
pub proof fn lemma_decoded_len_bound<V: Variant>(t: Seq<u8>)
    requires
        length_ok(t.len(), V::padded()),
    ensures
        decode_of::<V>(t).len() == decoded_body_len_of(body_of::<V>(t).len()),
        decode_of::<V>(t).len() <= decoded_len_bound_of(t.len(), V::padded()),
        !V::padded() ==> decode_of::<V>(t).len() == decoded_len_bound_of(
            t.len(),
            V::padded(),
        ),
{
    lemma_bytes_of_len(body_vals_of::<V>(t));
    if V::padded() {
        let n = t.len() as int;
        let p = strip_count(t) as int;
        lemma_fundamental_div_mod(n, 4);
        let q = n / 4;
        assert(n % 4 == 0);
        if p == 0 {
        } else {
            assert(n >= 1);
            assert(q >= 1) by {
                lemma_fundamental_div_mod(n, 4);
            }
            lemma_div_mod_small(q - 1, 4 - p, 4);
            assert(n - p == 4 * (q - 1) + (4 - p));
        }
    }
}

} // verus!
