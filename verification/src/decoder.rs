//! Text-to-byte conversion with strict validation: one-shot decoding into a
//! caller-owned buffer, in-place decoding over the same storage, and a
//! heap-returning form.  Symbol validity is accumulated across each whole
//! input with a bitwise OR and inspected only once, after the last symbol,
//! so the failure point cannot be inferred from the trace.

use vstd::prelude::*;
use vstd::arithmetic::div_mod::lemma_fundamental_div_mod;
use crate::errors::Error;
use crate::model::{
    body_of, body_vals_of, bytes_of, decode_of, decoded_body_len_of, decoded_len_bound_of,
    lemma_bytes_of_append, lemma_bytes_of_group, lemma_bytes_of_len, lemma_bytes_of_split,
    lemma_bytes_of_tail, lemma_decoded_len_bound, lemma_div_mod_small, length_ok, pad_blocked,
    strip_count, sym_val_u8, syms_ok, tail_bytes_of,
};
use crate::variant::{match_eq_ct, Variant, PAD};

verus! {

/// The OR of a group's 6-bit values has its sign bit set exactly when some
/// symbol in the group was invalid.
proof fn lemma_err_bit4(c0: i16, c1: i16, c2: i16, c3: i16)
    by (bit_vector)
    requires
        -1 <= c0 < 64,
        -1 <= c1 < 64,
        -1 <= c2 < 64,
        -1 <= c3 < 64,
    ensures
        (((c0 | c1 | c2 | c3) >> 8) & 1) == (if c0 >= 0 && c1 >= 0 && c2 >= 0 && c3 >= 0 {
            0i16
        } else {
            1i16
        }),
{
}

proof fn lemma_err_bit3(c0: i16, c1: i16, c2: i16)
    by (bit_vector)
    requires
        -1 <= c0 < 64,
        -1 <= c1 < 64,
        -1 <= c2 < 64,
    ensures
        (((c0 | c1 | c2) >> 8) & 1) == (if c0 >= 0 && c1 >= 0 && c2 >= 0 {
            0i16
        } else {
            1i16
        }),
{
}

proof fn lemma_err_bit2(c0: i16, c1: i16)
    by (bit_vector)
    requires
        -1 <= c0 < 64,
        -1 <= c1 < 64,
    ensures
        (((c0 | c1) >> 8) & 1) == (if c0 >= 0 && c1 >= 0 {
            0i16
        } else {
            1i16
        }),
{
}

/// OR of two accumulated error bits.
proof fn lemma_or_bit(a: i16, b: i16)
    by (bit_vector)
    requires
        0 <= a <= 1,
        0 <= b <= 1,
    ensures
        (a | b) == (if a == 1 || b == 1 {
            1i16
        } else {
            0i16
        }),
{
}

/// AND of two 0/1 gates.
proof fn lemma_and_bit(a: i16, b: i16)
    by (bit_vector)
    requires
        0 <= a <= 1,
        0 <= b <= 1,
    ensures
        (a & b) == (if a == 1 && b == 1 {
            1i16
        } else {
            0i16
        }),
{
}

/// Masking a 6-bit value (or the -1 sentinel) into the 0..64 range.
proof fn lemma_mask_val(c: i16)
    by (bit_vector)
    requires
        -1 <= c < 64,
    ensures
        0 <= (c & 63) < 64,
        c >= 0 ==> (c & 63) == c,
        c < 0 ==> (c & 63) == 63,
{
}

/// The upper bound on the decoded byte count for `bytes` symbols of input:
/// `n/4*3` for a padded variant (exact once padding is resolved), exactly
/// `n*3/4` rounded down for an unpadded one.
pub fn decoded_len<V: Variant>(bytes: &[u8]) -> (r: usize)
    ensures
        r == decoded_len_bound_of(bytes@.len(), V::padded()),
{
    let n = bytes.len();
    let k = n / 4;
    let rm = n % 4;
    proof {
        lemma_fundamental_div_mod(n as int, 4);
    }
    if V::is_padded() {
        k * 3
    } else {
        if rm == 2 {
            k * 3 + 1
        } else if rm == 3 {
            k * 3 + 2
        } else {
            k * 3
        }
    }
}

/// The shared decoding engine: decodes the `m`-symbol prefix of `src` into
/// the prefix of `dst`, accumulating symbol validity without branching on
/// data.  Returns the byte count and whether every symbol was valid.
#[verifier::rlimit(60)]
fn decode_groups<V: Variant>(src: &[u8], m: usize, dst: &mut Vec<u8>) -> (res: (usize, bool))
    requires
        m <= src@.len(),
        m as int % 4 != 1,
        decoded_body_len_of(m as nat) <= old(dst)@.len(),
    ensures
        res.0 == decoded_body_len_of(m as nat),
        final(dst)@.len() == old(dst)@.len(),
        res.1 <==> (forall|j: int| 0 <= j < m ==> V::val_of(#[trigger] src@[j]) >= 0),
        res.1 ==> final(dst)@.subrange(0, res.0 as int) == bytes_of(
            Seq::new(m as nat, |i: int| sym_val_u8::<V>(src@[i])),
        ),
        forall|j: int| res.0 <= j < final(dst)@.len() ==> #[trigger] final(dst)@[j] == old(
            dst,
        )@[j],
{
    let ghost bvs = Seq::new(m as nat, |i: int| sym_val_u8::<V>(src@[i]));
    proof {
        V::alphabet_facts();
        lemma_bytes_of_len(bvs);
    }
    let k = m / 4;
    let rm = m % 4;
    let cap = dst.len();
    proof {
        lemma_fundamental_div_mod(m as int, 4);
    }
    let mut i: usize = 0;
    let mut o: usize = 0;
    let mut err: i16 = 0;
    while i < k
        invariant
            i <= k,
            o == 3 * i,
            m <= src@.len(),
            k == m as int / 4,
            rm == m as int % 4,
            m == 4 * (k as int) + rm,
            bvs == Seq::new(m as nat, |i: int| sym_val_u8::<V>(src@[i])),
            decoded_body_len_of(m as nat) == 3 * (k as int) + tail_bytes_of(rm as int),
            decoded_body_len_of(m as nat) <= cap,
            cap == dst@.len(),
            dst@.len() == old(dst)@.len(),
            err == 0 || err == 1,
            (err == 0) <==> (forall|j: int|
                0 <= j < 4 * i ==> V::val_of(#[trigger] src@[j]) >= 0),
            err == 0 ==> forall|j: int| 0 <= j < o ==> #[trigger] dst@[j] == bytes_of(bvs)[j],
            forall|j: int| o <= j < dst@.len() ==> #[trigger] dst@[j] == old(dst)@[j],
        decreases k - i,
    {
        let c0 = V::decode_6bits(src[4 * i]);
        let c1 = V::decode_6bits(src[4 * i + 1]);
        let c2 = V::decode_6bits(src[4 * i + 2]);
        let c3 = V::decode_6bits(src[4 * i + 3]);
        let bit = ((c0 | c1 | c2 | c3) >> 8) & 1;
        proof {
            V::alphabet_facts();
            lemma_err_bit4(c0, c1, c2, c3);
            lemma_or_bit(err, bit);
            lemma_mask_val(c0);
            lemma_mask_val(c1);
            lemma_mask_val(c2);
            lemma_mask_val(c3);
            lemma_bytes_of_group(bvs, i as int);
        }
        err = err | bit;
        let v0 = (c0 & 63) as u8;
        let v1 = (c1 & 63) as u8;
        let v2 = (c2 & 63) as u8;
        let v3 = (c3 & 63) as u8;
        dst.set(o, (v0 << 2) | (v1 >> 4));
        dst.set(o + 1, ((v1 & 15) << 4) | (v2 >> 2));
        dst.set(o + 2, ((v2 & 3) << 6) | v3);
        i = i + 1;
        o = o + 3;
    }
    if rm == 2 {
        let c0 = V::decode_6bits(src[4 * k]);
        let c1 = V::decode_6bits(src[4 * k + 1]);
        let bit = ((c0 | c1) >> 8) & 1;
        proof {
            V::alphabet_facts();
            lemma_err_bit2(c0, c1);
            lemma_or_bit(err, bit);
            lemma_mask_val(c0);
            lemma_mask_val(c1);
            lemma_bytes_of_tail(bvs, k as int);
        }
        err = err | bit;
        let v0 = (c0 & 63) as u8;
        let v1 = (c1 & 63) as u8;
        dst.set(o, (v0 << 2) | (v1 >> 4));
        o = o + 1;
    } else if rm == 3 {
        let c0 = V::decode_6bits(src[4 * k]);
        let c1 = V::decode_6bits(src[4 * k + 1]);
        let c2 = V::decode_6bits(src[4 * k + 2]);
        let bit = ((c0 | c1 | c2) >> 8) & 1;
        proof {
            V::alphabet_facts();
            lemma_err_bit3(c0, c1, c2);
            lemma_or_bit(err, bit);
            lemma_mask_val(c0);
            lemma_mask_val(c1);
            lemma_mask_val(c2);
            lemma_bytes_of_tail(bvs, k as int);
        }
        err = err | bit;
        let v0 = (c0 & 63) as u8;
        let v1 = (c1 & 63) as u8;
        let v2 = (c2 & 63) as u8;
        dst.set(o, (v0 << 2) | (v1 >> 4));
        dst.set(o + 1, ((v1 & 15) << 4) | (v2 >> 2));
        o = o + 2;
    } else {
        proof {
            lemma_bytes_of_tail(bvs, k as int);
        }
    }
    let ok = err == 0;
    proof {
        if ok {
            assert(dst@.subrange(0, o as int) =~= bytes_of(bvs));
        }
    }
    (o, ok)
}

/// Decode `src` into the prefix of `dst`, returning the number of bytes
/// written.  Fails with `InvalidLength` when the text length does not fit
/// the variant or `dst` is too small, and with `InvalidEncoding` when a
/// symbol is outside the alphabet or padding is misplaced.
#[verifier::rlimit(60)]
pub fn decode<V: Variant>(src: &[u8], dst: &mut Vec<u8>) -> (r: Result<usize, Error>)
    ensures
        final(dst)@.len() == old(dst)@.len(),
        match r {
            Ok(n) => {
                &&& length_ok(src@.len(), V::padded())
                &&& syms_ok::<V>(src@)
                &&& n == decode_of::<V>(src@).len()
                &&& n <= old(dst)@.len()
                &&& final(dst)@.subrange(0, n as int) == decode_of::<V>(src@)
                &&& final(dst)@.skip(n as int) == old(dst)@.skip(n as int)
            },
            Err(e) => match e {
                Error::InvalidLength => !length_ok(src@.len(), V::padded()) || decode_of::<V>(
                    src@,
                ).len() > old(dst)@.len(),
                Error::InvalidEncoding => {
                    &&& length_ok(src@.len(), V::padded())
                    &&& decode_of::<V>(src@).len() <= old(dst)@.len()
                    &&& !syms_ok::<V>(src@)
                    &&& final(dst)@.skip(decode_of::<V>(src@).len() as int) == old(
                        dst,
                    )@.skip(decode_of::<V>(src@).len() as int)
                },
            },
        },
{
    let len = src.len();
    let m: usize;
    if V::is_padded() {
        if len % 4 != 0 {
            return Err(Error::InvalidLength);
        }
        let p: usize;
        if len >= 2 {
            let e1 = match_eq_ct(src[len - 1], PAD);
            let e0 = match_eq_ct(src[len - 2], PAD);
            proof {
                lemma_and_bit(e1, e0);
            }
            p = (e1 + (e1 & e0)) as usize;
        } else {
            p = 0;
        }
        proof {
            assert(p == strip_count(src@));
        }
        m = len - p;
        proof {
            lemma_fundamental_div_mod(len as int, 4);
            let q = len as int / 4;
            if p > 0 {
                lemma_div_mod_small(q - 1, 4 - p, 4);
            }
        }
    } else {
        if len % 4 == 1 {
            return Err(Error::InvalidLength);
        }
        m = len;
    }
    let ghost body = body_of::<V>(src@);
    proof {
        assert(body =~= src@.take(m as int));
    }
    let k = m / 4;
    let rm = m % 4;
    proof {
        lemma_fundamental_div_mod(m as int, 4);
    }
    let needed = k * 3 + (if rm == 2 {
        1
    } else if rm == 3 {
        2
    } else {
        0
    });
    let ghost dlen = decode_of::<V>(src@).len();
    proof {
        lemma_bytes_of_len(body_vals_of::<V>(src@));
        assert(needed == dlen);
    }
    if needed > dst.len() {
        return Err(Error::InvalidLength);
    }
    let (n, ok) = decode_groups::<V>(src, m, dst);
    proof {
        assert(body_vals_of::<V>(src@) =~= Seq::new(m as nat, |i: int| sym_val_u8::<V>(src@[i])));
        assert(forall|i: int| 0 <= i < m ==> #[trigger] body[i] == src@[i]);
        if ok {
            assert(forall|i: int|
                0 <= i < body.len() ==> V::val_of(#[trigger] body[i]) >= 0);
        } else {
            let j = choose|j: int| 0 <= j < m && !(V::val_of(#[trigger] src@[j]) >= 0);
            assert(V::val_of(body[j]) < 0);
            assert(!syms_ok::<V>(src@));
        }
    }
    if ok {
        Ok(n)
    } else {
        Err(Error::InvalidEncoding)
    }
}

/// Decode a buffer over itself: the same storage is read as symbols and
/// overwritten, left to right, with the decoded bytes.  The write cursor
/// never passes the read cursor, since each 4-symbol group decodes to at
/// most 3 bytes, so everything at and beyond the returned length is left
/// exactly as it was.  This lets a caller decode secret material and then
/// zeroize one buffer, with no second allocation.
#[verifier::rlimit(100)]
pub fn decode_in_place<V: Variant>(buf: &mut Vec<u8>) -> (r: Result<usize, Error>)
    ensures
        final(buf)@.len() == old(buf)@.len(),
        match r {
            Ok(n) => {
                &&& length_ok(old(buf)@.len(), V::padded())
                &&& syms_ok::<V>(old(buf)@)
                &&& n == decode_of::<V>(old(buf)@).len()
                &&& final(buf)@.subrange(0, n as int) == decode_of::<V>(old(buf)@)
                &&& final(buf)@.skip(n as int) == old(buf)@.skip(n as int)
            },
            Err(e) => match e {
                Error::InvalidLength => {
                    &&& !length_ok(old(buf)@.len(), V::padded())
                    &&& final(buf)@ == old(buf)@
                },
                Error::InvalidEncoding => {
                    &&& length_ok(old(buf)@.len(), V::padded())
                    &&& !syms_ok::<V>(old(buf)@)
                    &&& final(buf)@.skip(decode_of::<V>(old(buf)@).len() as int) == old(
                        buf,
                    )@.skip(decode_of::<V>(old(buf)@).len() as int)
                },
            },
        },
{
    let len = buf.len();
    let m: usize;
    if V::is_padded() {
        if len % 4 != 0 {
            return Err(Error::InvalidLength);
        }
        let p: usize;
        if len >= 2 {
            let e1 = match_eq_ct(buf[len - 1], PAD);
            let e0 = match_eq_ct(buf[len - 2], PAD);
            proof {
                lemma_and_bit(e1, e0);
            }
            p = (e1 + (e1 & e0)) as usize;
        } else {
            p = 0;
        }
        proof {
            assert(p == strip_count(old(buf)@));
        }
        m = len - p;
        proof {
            lemma_fundamental_div_mod(len as int, 4);
            let q = len as int / 4;
            if p > 0 {
                lemma_div_mod_small(q - 1, 4 - p, 4);
            }
        }
    } else {
        if len % 4 == 1 {
            return Err(Error::InvalidLength);
        }
        m = len;
    }
    let ghost body = body_of::<V>(old(buf)@);
    let ghost bvs = Seq::new(m as nat, |i: int| sym_val_u8::<V>(old(buf)@[i]));
    proof {
        V::alphabet_facts();
        assert(body =~= old(buf)@.take(m as int));
        assert(body_vals_of::<V>(old(buf)@) =~= bvs);
        lemma_bytes_of_len(bvs);
    }
    let k = m / 4;
    let rm = m % 4;
    proof {
        lemma_fundamental_div_mod(m as int, 4);
    }
    let mut i: usize = 0;
    let mut o: usize = 0;
    let mut err: i16 = 0;
    while i < k
        invariant
            i <= k,
            o == 3 * i,
            m <= len,
            len == old(buf)@.len(),
            k == m as int / 4,
            rm == m as int % 4,
            m == 4 * (k as int) + rm,
            bvs == Seq::new(m as nat, |i: int| sym_val_u8::<V>(old(buf)@[i])),
            decoded_body_len_of(m as nat) == 3 * (k as int) + tail_bytes_of(rm as int),
            buf@.len() == old(buf)@.len(),
            err == 0 || err == 1,
            (err == 0) <==> (forall|j: int|
                0 <= j < 4 * i ==> V::val_of(#[trigger] old(buf)@[j]) >= 0),
            err == 0 ==> forall|j: int| 0 <= j < o ==> #[trigger] buf@[j] == bytes_of(bvs)[j],
            forall|j: int| o <= j < buf@.len() ==> #[trigger] buf@[j] == old(buf)@[j],
        decreases k - i,
    {
        let c0 = V::decode_6bits(buf[4 * i]);
        let c1 = V::decode_6bits(buf[4 * i + 1]);
        let c2 = V::decode_6bits(buf[4 * i + 2]);
        let c3 = V::decode_6bits(buf[4 * i + 3]);
        let bit = ((c0 | c1 | c2 | c3) >> 8) & 1;
        proof {
            V::alphabet_facts();
            lemma_err_bit4(c0, c1, c2, c3);
            lemma_or_bit(err, bit);
            lemma_mask_val(c0);
            lemma_mask_val(c1);
            lemma_mask_val(c2);
            lemma_mask_val(c3);
            lemma_bytes_of_group(bvs, i as int);
        }
        err = err | bit;
        let v0 = (c0 & 63) as u8;
        let v1 = (c1 & 63) as u8;
        let v2 = (c2 & 63) as u8;
        let v3 = (c3 & 63) as u8;
        buf.set(o, (v0 << 2) | (v1 >> 4));
        buf.set(o + 1, ((v1 & 15) << 4) | (v2 >> 2));
        buf.set(o + 2, ((v2 & 3) << 6) | v3);
        i = i + 1;
        o = o + 3;
    }
    if rm == 2 {
        let c0 = V::decode_6bits(buf[4 * k]);
        let c1 = V::decode_6bits(buf[4 * k + 1]);
        let bit = ((c0 | c1) >> 8) & 1;
        proof {
            V::alphabet_facts();
            lemma_err_bit2(c0, c1);
            lemma_or_bit(err, bit);
            lemma_mask_val(c0);
            lemma_mask_val(c1);
            lemma_bytes_of_tail(bvs, k as int);
        }
        err = err | bit;
        let v0 = (c0 & 63) as u8;
        let v1 = (c1 & 63) as u8;
        buf.set(o, (v0 << 2) | (v1 >> 4));
        o = o + 1;
    } else if rm == 3 {
        let c0 = V::decode_6bits(buf[4 * k]);
        let c1 = V::decode_6bits(buf[4 * k + 1]);
        let c2 = V::decode_6bits(buf[4 * k + 2]);
        let bit = ((c0 | c1 | c2) >> 8) & 1;
        proof {
            V::alphabet_facts();
            lemma_err_bit3(c0, c1, c2);
            lemma_or_bit(err, bit);
            lemma_mask_val(c0);
            lemma_mask_val(c1);
            lemma_mask_val(c2);
            lemma_bytes_of_tail(bvs, k as int);
        }
        err = err | bit;
        let v0 = (c0 & 63) as u8;
        let v1 = (c1 & 63) as u8;
        let v2 = (c2 & 63) as u8;
        buf.set(o, (v0 << 2) | (v1 >> 4));
        buf.set(o + 1, ((v1 & 15) << 4) | (v2 >> 2));
        o = o + 2;
    } else {
        proof {
            lemma_bytes_of_tail(bvs, k as int);
        }
    }
    proof {
        assert(forall|i: int| 0 <= i < m ==> #[trigger] body[i] == old(buf)@[i]);
    }
    if err == 0 {
        proof {
            assert(forall|i: int|
                0 <= i < body.len() ==> V::val_of(#[trigger] body[i]) >= 0);
            assert(buf@.subrange(0, o as int) =~= bytes_of(bvs));
        }
        Ok(o)
    } else {
        proof {
            let j = choose|j: int| 0 <= j < m && !(V::val_of(#[trigger] old(buf)@[j]) >= 0);
            assert(V::val_of(body[j]) < 0);
            assert(!syms_ok::<V>(old(buf)@));
        }
        Err(Error::InvalidEncoding)
    }
}

/// Decode `src` into a freshly allocated buffer of exactly the decoded
/// length.  The heap-returning accessory: same validation, own allocation.
pub fn decode_vec<V: Variant>(src: &[u8]) -> (r: Result<Vec<u8>, Error>)
    ensures
        match r {
            Ok(v) => {
                &&& length_ok(src@.len(), V::padded())
                &&& syms_ok::<V>(src@)
                &&& v@ == decode_of::<V>(src@)
            },
            Err(e) => match e {
                Error::InvalidLength => !length_ok(src@.len(), V::padded()),
                Error::InvalidEncoding => length_ok(src@.len(), V::padded()) && !syms_ok::<V>(
                    src@,
                ),
            },
        },
{
    let bound = decoded_len::<V>(src);
    let mut dst: Vec<u8> = vec![0u8; bound];
    proof {
        if length_ok(src@.len(), V::padded()) {
            lemma_decoded_len_bound::<V>(src@);
        }
    }
    match decode::<V>(src, &mut dst) {
        Ok(n) => {
            dst.truncate(n);
            proof {
                assert(dst@ =~= decode_of::<V>(src@));
            }
            Ok(dst)
        },
        Err(e) => Err(e),
    }
}


/// Decode the `mm`-symbol body prefix of `src` into a fresh buffer,
/// accumulating validity on top of an incoming error flag: the streaming
/// engine shared by `Decoder::feed` and `Decoder::finish`.
#[verifier::rlimit(60)]
fn decode_body_to_vec<V: Variant>(src: &[u8], mm: usize, err0: i16) -> (res: (Vec<u8>, i16))
    requires
        err0 == 0 || err0 == 1,
        mm <= src@.len(),
        mm as int % 4 != 1,
    ensures
        res.1 == 0 || res.1 == 1,
        (res.1 == 0) <==> (err0 == 0 && (forall|j: int|
            0 <= j < mm ==> V::val_of(#[trigger] src@[j]) >= 0)),
        res.0@ == bytes_of(Seq::new(mm as nat, |i: int| sym_val_u8::<V>(src@[i]))),
{
    let ghost cvals = Seq::new(mm as nat, |i: int| sym_val_u8::<V>(src@[i]));
    let kf = mm / 4;
    let rm = mm % 4;
    proof {
        lemma_fundamental_div_mod(mm as int, 4);
    }
    let mut out: Vec<u8> = Vec::new();
    let mut e: i16 = err0;
    let mut i: usize = 0;
    while i < kf
        invariant
            i <= kf,
            out@.len() == 3 * i,
            mm <= src@.len(),
            kf == mm as int / 4,
            rm == mm as int % 4,
            mm == 4 * (kf as int) + rm,
            cvals == Seq::new(mm as nat, |i: int| sym_val_u8::<V>(src@[i])),
            e == 0 || e == 1,
            err0 == 0 || err0 == 1,
            (e == 0) <==> (err0 == 0 && (forall|j: int|
                0 <= j < 4 * i ==> V::val_of(#[trigger] src@[j]) >= 0)),
            forall|j: int| 0 <= j < 3 * i ==> #[trigger] out@[j] == bytes_of(cvals)[j],
        decreases kf - i,
    {
        let c0 = V::decode_6bits(src[4 * i]);
        let c1 = V::decode_6bits(src[4 * i + 1]);
        let c2 = V::decode_6bits(src[4 * i + 2]);
        let c3 = V::decode_6bits(src[4 * i + 3]);
        let bit = ((c0 | c1 | c2 | c3) >> 8) & 1;
        proof {
            V::alphabet_facts();
            lemma_err_bit4(c0, c1, c2, c3);
            lemma_or_bit(e, bit);
            lemma_mask_val(c0);
            lemma_mask_val(c1);
            lemma_mask_val(c2);
            lemma_mask_val(c3);
            lemma_bytes_of_group(cvals, i as int);
        }
        e = e | bit;
        let v0 = (c0 & 63) as u8;
        let v1 = (c1 & 63) as u8;
        let v2 = (c2 & 63) as u8;
        let v3 = (c3 & 63) as u8;
        out.push((v0 << 2) | (v1 >> 4));
        out.push(((v1 & 15) << 4) | (v2 >> 2));
        out.push(((v2 & 3) << 6) | v3);
        i = i + 1;
    }
    if rm == 2 {
        let c0 = V::decode_6bits(src[4 * kf]);
        let c1 = V::decode_6bits(src[4 * kf + 1]);
        let bit = ((c0 | c1) >> 8) & 1;
        proof {
            V::alphabet_facts();
            lemma_err_bit2(c0, c1);
            lemma_or_bit(e, bit);
            lemma_mask_val(c0);
            lemma_mask_val(c1);
            lemma_bytes_of_tail(cvals, kf as int);
        }
        e = e | bit;
        let v0 = (c0 & 63) as u8;
        let v1 = (c1 & 63) as u8;
        out.push((v0 << 2) | (v1 >> 4));
    } else if rm == 3 {
        let c0 = V::decode_6bits(src[4 * kf]);
        let c1 = V::decode_6bits(src[4 * kf + 1]);
        let c2 = V::decode_6bits(src[4 * kf + 2]);
        let bit = ((c0 | c1 | c2) >> 8) & 1;
        proof {
            V::alphabet_facts();
            lemma_err_bit3(c0, c1, c2);
            lemma_or_bit(e, bit);
            lemma_mask_val(c0);
            lemma_mask_val(c1);
            lemma_mask_val(c2);
            lemma_bytes_of_tail(cvals, kf as int);
        }
        e = e | bit;
        let v0 = (c0 & 63) as u8;
        let v1 = (c1 & 63) as u8;
        let v2 = (c2 & 63) as u8;
        out.push((v0 << 2) | (v1 >> 4));
        out.push(((v1 & 15) << 4) | (v2 >> 2));
    } else {
        proof {
            lemma_bytes_of_tail(cvals, kf as int);
        }
    }
    proof {
        assert(out@ =~= bytes_of(cvals));
        assert((e == 0) <==> (err0 == 0 && (forall|j: int|
            0 <= j < mm ==> V::val_of(#[trigger] src@[j]) >= 0))) by {
            if e == 0 {
                assert forall|j: int| 0 <= j < mm implies V::val_of(#[trigger] src@[j])
                    >= 0 by {
                    if j >= 4 * (kf as int) {
                        assert(j == 4 * (kf as int) || j == 4 * (kf as int) + 1 || j == 4 * (
                        kf as int) + 2);
                    }
                }
            }
        }
    }
    (out, e)
}

/// Incremental decoder: a fixed-capacity cache of at most three unconsumed
/// symbols, exclusively owned by the instance.  Each `feed` emits the bytes
/// of every complete 4-symbol group; symbol validity is accumulated, not
/// branched on, and inspected by `finish`, which also enforces the
/// terminal-padding and length rules deferred during feeding.
pub struct Decoder<V: Variant> {
    leftover: Vec<u8>,
    err: i16,
    pad_seen: bool,
    fed: Ghost<Seq<u8>>,
    variant: core::marker::PhantomData<V>,
}

impl<V: Variant> Decoder<V> {
    /// All symbols fed so far.
    pub closed spec fn fed_syms(self) -> Seq<u8> {
        self.fed@
    }

    /// The length of the prefix of the fed symbols already consumed.
    pub closed spec fn digested(self) -> int {
        self.fed@.len() - self.leftover@.len()
    }

    /// The bytes the feeds have emitted so far: the decoding of the
    /// consumed prefix.
    pub closed spec fn emitted_bytes(self) -> Seq<u8> {
        decode_of::<V>(self.fed@.take(self.digested()))
    }

    /// Well-formed: the cache holds exactly the symbols past the last
    /// consumed group, and the error flag sums up their validity.
    pub closed spec fn wf(self) -> bool {
        let fed = self.fed@;
        let d = self.digested();
        &&& self.leftover@ == fed.skip(d)
        &&& (self.err == 0 || self.err == 1)
        &&& (!V::padded() ==> !self.pad_seen)
        &&& (!self.pad_seen ==> {
            &&& self.leftover@.len() < 4
            &&& d % 4 == 0
            &&& (V::padded() && d >= 1 ==> fed[d - 1] != PAD)
            &&& ((self.err == 0) <==> (forall|j: int|
                0 <= j < d ==> V::val_of(#[trigger] fed[j]) >= 0))
        })
        &&& (self.pad_seen ==> {
            &&& V::padded()
            &&& self.leftover@.len() == 0
            &&& fed.len() % 4 == 0
            &&& fed.len() >= 4
            &&& strip_count(fed) >= 1
            &&& ((self.err == 0) <==> (forall|j: int|
                0 <= j < fed.len() - strip_count(fed) ==> V::val_of(#[trigger] fed[j]) >= 0))
        })
    }

    /// A fresh decoder with an empty cache.
    pub fn new() -> (r: Self)
        ensures
            r.wf(),
            r.fed_syms() == Seq::<u8>::empty(),
    {
        let r = Decoder {
            leftover: Vec::new(),
            err: 0,
            pad_seen: false,
            fed: Ghost(Seq::empty()),
            variant: core::marker::PhantomData,
        };
        proof {
            assert(r.leftover@ =~= r.fed@.skip(r.digested()));
        }
        r
    }

    /// Feed more symbols: emits the bytes of every group they complete,
    /// leftover symbols first, and caches the new remainder.  Fails only
    /// when a padding symbol stands mid-stream: a completed group ended in
    /// padding, yet more symbols follow it.  The decoder is then unchanged,
    /// and no extension of what was fed can ever be valid.
    #[verifier::rlimit(100)]
    pub fn feed(&mut self, text: &[u8]) -> (r: Result<Vec<u8>, Error>)
        requires
            old(self).wf(),
        ensures
            final(self).wf(),
            match r {
                Ok(out) => {
                    &&& final(self).fed_syms() == old(self).fed_syms() + text@
                    &&& old(self).emitted_bytes() + out@ == final(self).emitted_bytes()
                },
                Err(e) => {
                    &&& e == Error::InvalidEncoding
                    &&& pad_blocked(old(self).fed_syms() + text@)
                    &&& *final(self) == *old(self)
                },
            },
    {
        let ghost fed0 = self.fed@;
        let ghost d0 = old(self).digested();
        let ghost fed1 = fed0 + text@;
        if self.pad_seen {
            if text.len() > 0 {
                proof {
                    lemma_fundamental_div_mod(fed0.len() as int, 4);
                    let g = fed0.len() as int / 4 - 1;
                    assert(fed1[4 * g + 3] == fed0[fed0.len() - 1]);
                    assert(fed0[fed0.len() - 1] == PAD);
                    assert(4 * g + 4 < fed1.len());
                    assert(pad_blocked(fed1));
                }
                return Err(Error::InvalidEncoding);
            }
            let out: Vec<u8> = Vec::new();
            self.fed = Ghost(fed1);
            proof {
                assert(fed1 =~= fed0);
                assert(old(self).emitted_bytes() + out@ =~= self.emitted_bytes());
            }
            return Ok(out);
        }
        let mut combined: Vec<u8> = Vec::new();
        combined.extend_from_slice(self.leftover.as_slice());
        combined.extend_from_slice(text);
        proof {
            assert(combined@ =~= fed1.skip(d0));
            assert(forall|j: int|
                0 <= j < combined@.len() ==> #[trigger] combined@[j] == fed1[d0 + j]);
            assert(forall|j: int| 0 <= j < d0 ==> #[trigger] fed1[j] == fed0[j]);
            assert(fed1.take(d0) =~= fed0.take(d0));
        }
        let n = combined.len();
        let k = n / 4;
        let rem = n % 4;
        proof {
            lemma_fundamental_div_mod(n as int, 4);
        }
        // a group ending in `=` must be the very last thing fed so far
        let mut bad = false;
        let mut g: usize = 0;
        while g < k
            invariant
                g <= k,
                n == combined@.len(),
                k == n as int / 4,
                rem == n as int % 4,
                n == 4 * (k as int) + rem,
                0 <= d0,
                d0 % 4 == 0,
                fed1.len() == d0 + n,
                combined@ == fed1.skip(d0),
                bad ==> pad_blocked(fed1),
                V::padded() && !bad ==> forall|g2: int|
                    0 <= g2 < g && (g2 + 1 < k || rem > 0) ==> #[trigger] combined@[4 * g2 + 3]
                        != PAD,
            decreases k - g,
        {
            if V::is_padded() && (g + 1 < k || rem > 0) {
                if combined[4 * g + 3] == PAD {
                    proof {
                        assert(fed1[d0 + 4 * (g as int) + 3] == combined@[4 * (g as int) + 3]);
                        lemma_pad_blocked_witness(fed1, d0, g as int);
                    }
                    bad = true;
                }
            }
            g = g + 1;
        }
        if bad {
            return Err(Error::InvalidEncoding);
        }
        let mut term = false;
        let mut p: usize = 0;
        if V::is_padded() && k >= 1 && rem == 0 {
            if combined[n - 1] == PAD {
                term = true;
                let e2 = match_eq_ct(combined[n - 2], PAD);
                p = 1 + (e2 as usize);
            }
        }
        let kf: usize = if term {
            k - 1
        } else {
            k
        };
        let mm: usize = if term {
            n - p
        } else {
            4 * k
        };
        let ghost cvals = Seq::new(mm as nat, |i: int| sym_val_u8::<V>(combined@[i]));
        proof {
            lemma_fundamental_div_mod(mm as int, 4);
            if term {
                lemma_div_mod_small(kf as int, 4 - p as int, 4);
            } else {
                lemma_div_mod_small(kf as int, 0, 4);
            }
        }
        let (out, e) = decode_body_to_vec::<V>(combined.as_slice(), mm, self.err);
        let mut cache: Vec<u8> = Vec::new();
        if !term {
            if rem >= 1 {
                cache.push(combined[4 * k]);
            }
            if rem >= 2 {
                cache.push(combined[4 * k + 1]);
            }
            if rem == 3 {
                cache.push(combined[4 * k + 2]);
            }
        }
        self.leftover = cache;
        self.err = e;
        self.pad_seen = term;
        self.fed = Ghost(fed1);
        proof {
            if term {
                assert(mm + p == n);
                assert(fed1[fed1.len() - 1] == combined@[n - 1]);
                assert(fed1[fed1.len() - 2] == combined@[n - 2]);
            } else {
                if V::padded() && mm >= 1 {
                    assert(combined@[4 * ((k as int) - 1) + 3] != PAD);
                    assert(combined@[mm - 1] != PAD);
                    assert(fed1[d0 + mm - 1] == combined@[mm - 1]);
                }
            }
            lemma_decoder_feed_summary::<V>(fed1, d0, mm as int, term, p as int);
            assert(Seq::new(mm as nat, |i: int| sym_val_u8::<V>(fed1[d0 + i])) =~= cvals);
            // the new cache is exactly what lies past the digested prefix
            assert(self.leftover@ =~= fed1.skip(self.digested()));
            lemma_fundamental_div_mod(d0, 4);
            if term {
                assert(self.digested() == fed1.len());
                assert(fed1.take(fed1.len() as int) =~= fed1);
                lemma_div_mod_small(d0 / 4 + k as int, 0, 4);
                assert(fed1.len() % 4 == 0);
            } else {
                assert(self.digested() == d0 + mm);
                lemma_div_mod_small(d0 / 4 + kf as int, 0, 4);
                assert((d0 + mm) % 4 == 0);
                if V::padded() && mm == 0 && d0 >= 1 {
                    assert(fed1[d0 - 1] == fed0[d0 - 1]);
                }
            }
            // the old emitted prefix is unchanged by feeding
            assert(old(self).emitted_bytes() == decode_of::<V>(fed1.take(d0)));
            assert(old(self).emitted_bytes() + out@ =~= self.emitted_bytes());
            // validity bookkeeping over the consumed body prefix
            assert((e == 0) <==> (old(self).err == 0 && (forall|j: int|
                0 <= j < mm ==> V::val_of(#[trigger] fed1[d0 + j]) >= 0))) by {
                if e == 0 {
                    assert forall|j: int| 0 <= j < mm implies V::val_of(
                        #[trigger] fed1[d0 + j],
                    ) >= 0 by {
                        assert(combined@[j] == fed1[d0 + j]);
                        assert(V::val_of(combined@[j]) >= 0);
                    }
                } else if old(self).err == 0 {
                    let j = choose|j: int|
                        0 <= j < mm && !(V::val_of(#[trigger] combined@[j]) >= 0);
                    assert(combined@[j] == fed1[d0 + j]);
                    assert(!(V::val_of(fed1[d0 + j]) >= 0));
                }
            }
            lemma_feed_validity::<V>(
                fed0,
                fed1,
                d0,
                mm as int,
                old(self).err == 0,
                e == 0,
            );
            if term {
                assert(fed1.len() - strip_count(fed1) == d0 + mm);
            }
        }
        Ok(out)
    }

    /// Flush and validate the stream end, consuming the decoder: the final
    /// partial group is decoded, and the length, padding-placement and
    /// alphabet rules are enforced exactly as by one-shot `decode`.
    #[verifier::rlimit(100)]
    pub fn finish(self) -> (r: Result<Vec<u8>, Error>)
        requires
            self.wf(),
        ensures
            match r {
                Ok(out) => {
                    &&& length_ok(self.fed_syms().len(), V::padded())
                    &&& syms_ok::<V>(self.fed_syms())
                    &&& self.emitted_bytes() + out@ == decode_of::<V>(self.fed_syms())
                },
                Err(e) => match e {
                    Error::InvalidLength => !length_ok(self.fed_syms().len(), V::padded()),
                    Error::InvalidEncoding => {
                        &&& length_ok(self.fed_syms().len(), V::padded())
                        &&& !syms_ok::<V>(self.fed_syms())
                    },
                },
            },
    {
        let ghost fed = self.fed@;
        let ghost d = self.digested();
        let rem = self.leftover.len();
        proof {
            if !self.pad_seen {
                lemma_fundamental_div_mod(d, 4);
                lemma_div_mod_small(d / 4, rem as int, 4);
                assert(fed.len() as int % 4 == rem);
            }
        }
        if V::is_padded() {
            if rem != 0 {
                return Err(Error::InvalidLength);
            }
            proof {
                assert(fed.take(d) =~= fed);
                if !self.pad_seen {
                    assert(fed.len() >= 1 ==> fed[fed.len() - 1] != PAD);
                    assert(strip_count(fed) == 0);
                }
                assert(forall|j: int|
                    0 <= j < body_of::<V>(fed).len() ==> #[trigger] body_of::<V>(fed)[j] == fed[j]);
            }
            if self.err != 0 {
                proof {
                    let j = choose|j: int|
                        0 <= j < fed.len() - strip_count(fed) && !(V::val_of(#[trigger] fed[j])
                            >= 0);
                    assert(V::val_of(body_of::<V>(fed)[j]) < 0);
                }
                return Err(Error::InvalidEncoding);
            }
            let out: Vec<u8> = Vec::new();
            proof {
                assert(self.emitted_bytes() + out@ =~= decode_of::<V>(fed));
            }
            Ok(out)
        } else {
            if rem == 1 {
                return Err(Error::InvalidLength);
            }
            let ghost bvs = body_vals_of::<V>(fed);
            let ghost tv = Seq::new(rem as nat, |i: int| sym_val_u8::<V>(self.leftover@[i]));
            proof {
                V::alphabet_facts();
                assert(bvs =~= Seq::new(fed.len(), |i: int| sym_val_u8::<V>(fed[i])));
                lemma_bytes_of_split(bvs, d / 4);
                assert(bvs.take(d) =~= body_vals_of::<V>(fed.take(d)));
                assert(bvs.skip(d) =~= tv);
                assert(forall|j: int|
                    0 <= j < rem ==> #[trigger] self.leftover@[j] == fed[d + j]);
            }
            let mut out: Vec<u8> = Vec::new();
            let mut e: i16 = self.err;
            if rem == 2 {
                let c0 = V::decode_6bits(self.leftover[0]);
                let c1 = V::decode_6bits(self.leftover[1]);
                let bit = ((c0 | c1) >> 8) & 1;
                proof {
                    lemma_err_bit2(c0, c1);
                    lemma_or_bit(e, bit);
                    lemma_mask_val(c0);
                    lemma_mask_val(c1);
                }
                e = e | bit;
                let v0 = (c0 & 63) as u8;
                let v1 = (c1 & 63) as u8;
                out.push((v0 << 2) | (v1 >> 4));
            } else if rem == 3 {
                let c0 = V::decode_6bits(self.leftover[0]);
                let c1 = V::decode_6bits(self.leftover[1]);
                let c2 = V::decode_6bits(self.leftover[2]);
                let bit = ((c0 | c1 | c2) >> 8) & 1;
                proof {
                    lemma_err_bit3(c0, c1, c2);
                    lemma_or_bit(e, bit);
                    lemma_mask_val(c0);
                    lemma_mask_val(c1);
                    lemma_mask_val(c2);
                }
                e = e | bit;
                let v0 = (c0 & 63) as u8;
                let v1 = (c1 & 63) as u8;
                let v2 = (c2 & 63) as u8;
                out.push((v0 << 2) | (v1 >> 4));
                out.push(((v1 & 15) << 4) | (v2 >> 2));
            }
            if e != 0 {
                proof {
                    if self.err == 0 {
                        let j = choose|j: int|
                            0 <= j < rem && !(V::val_of(#[trigger] self.leftover@[j]) >= 0);
                        assert(V::val_of(fed[d + j]) < 0);
                    }
                    assert(!syms_ok::<V>(fed));
                }
                return Err(Error::InvalidEncoding);
            }
            proof {
                assert(out@ =~= bytes_of(tv));
                assert(self.emitted_bytes() + out@ =~= decode_of::<V>(fed));
                assert(forall|j: int| 0 <= j < fed.len() ==> V::val_of(#[trigger] fed[j]) >= 0);
            }
            Ok(out)
        }
    }
}

/// A pad at the end of a complete group with symbols after it blocks the
/// whole stream.
proof fn lemma_pad_blocked_witness(t: Seq<u8>, d0: int, g: int)
    requires
        0 <= d0,
        d0 % 4 == 0,
        0 <= g,
        d0 + 4 * g + 4 < t.len(),
        t[d0 + 4 * g + 3] == PAD,
    ensures
        pad_blocked(t),
{
    let gg = d0 / 4 + g;
    lemma_fundamental_div_mod(d0, 4);
    assert(4 * gg + 3 == d0 + 4 * g + 3);
    assert(t[4 * gg + 3] == PAD);
    assert(4 * gg + 4 < t.len());
}

/// Joining the validity of an already-consumed prefix with that of newly
/// consumed symbols.
proof fn lemma_feed_validity<V: Variant>(
    fed0: Seq<u8>,
    fed1: Seq<u8>,
    d0: int,
    mm: int,
    ok0: bool,
    ok1: bool,
)
    requires
        0 <= d0 <= fed0.len(),
        0 <= mm,
        d0 + mm <= fed1.len(),
        forall|j: int| 0 <= j < d0 ==> #[trigger] fed1[j] == fed0[j],
        ok0 <==> (forall|j: int| 0 <= j < d0 ==> V::val_of(#[trigger] fed0[j]) >= 0),
        ok1 <==> (ok0 && (forall|j: int|
            0 <= j < mm ==> V::val_of(#[trigger] fed1[d0 + j]) >= 0)),
    ensures
        ok1 <==> (forall|j: int| 0 <= j < d0 + mm ==> V::val_of(#[trigger] fed1[j]) >= 0),
{
    if ok1 {
        assert forall|j: int| 0 <= j < d0 + mm implies V::val_of(#[trigger] fed1[j]) >= 0 by {
            if j < d0 {
                assert(fed1[j] == fed0[j]);
            } else {
                assert(fed1[j] == fed1[d0 + (j - d0)]);
            }
        }
    } else {
        if !ok0 {
            let j = choose|j: int| 0 <= j < d0 && !(V::val_of(#[trigger] fed0[j]) >= 0);
            assert(V::val_of(fed1[j]) < 0);
        } else {
            let j = choose|j: int| 0 <= j < mm && !(V::val_of(#[trigger] fed1[d0 + j]) >= 0);
            assert(V::val_of(fed1[d0 + j]) < 0);
        }
    }
}

/// The bookkeeping behind one `feed` call: after consuming `mm` more
/// symbols (and, for a terminal padded group, `p` trailing pads), the
/// decoded prefix extends by exactly the bytes of those symbols.
#[verifier::rlimit(100)]
proof fn lemma_decoder_feed_summary<V: Variant>(
    fed1: Seq<u8>,
    d0: int,
    mm: int,
    term: bool,
    p: int,
)
    requires
        0 <= d0,
        0 <= mm,
        d0 % 4 == 0,
        V::padded() ==> (d0 >= 1 ==> fed1[d0 - 1] != PAD),
        !V::padded() ==> !term,
        term ==> {
            &&& V::padded()
            &&& 1 <= p <= 2
            &&& d0 + mm + p == fed1.len()
            &&& mm + p >= 4
            &&& fed1[fed1.len() - 1] == PAD
            &&& (p == 2 <==> fed1[fed1.len() - 2] == PAD)
        },
        !term ==> {
            &&& d0 + mm <= fed1.len()
            &&& mm % 4 == 0
            &&& (V::padded() && mm >= 1 ==> fed1[d0 + mm - 1] != PAD)
        },
    ensures
        term ==> strip_count(fed1) == p && decode_of::<V>(fed1) == decode_of::<V>(
            fed1.take(d0),
        ) + bytes_of(Seq::new(mm as nat, |i: int| sym_val_u8::<V>(fed1[d0 + i]))),
        !term ==> decode_of::<V>(fed1.take(d0 + mm)) == decode_of::<V>(fed1.take(d0))
            + bytes_of(Seq::new(mm as nat, |i: int| sym_val_u8::<V>(fed1[d0 + i]))),
{
    let cvals = Seq::new(mm as nat, |i: int| sym_val_u8::<V>(fed1[d0 + i]));
    let pre = fed1.take(d0);
    if V::padded() {
        if d0 >= 1 {
            assert(pre[d0 - 1] == fed1[d0 - 1]);
        }
        assert(strip_count(pre) == 0);
    }
    assert(body_of::<V>(pre) =~= pre);
    assert(body_vals_of::<V>(pre).len() == d0);
    let dend: int = if term {
        fed1.len() as int
    } else {
        d0 + mm
    };
    let cur = fed1.take(dend);
    assert(cur.len() == dend);
    if term {
        assert(cur =~= fed1);
        assert(fed1.len() >= 2);
        if p == 2 {
            assert(strip_count(fed1) == 2);
        } else {
            assert(fed1[fed1.len() - 2] != PAD);
            assert(strip_count(fed1) == 1);
        }
    } else {
        if V::padded() {
            if dend >= 1 {
                if mm >= 1 {
                    assert(cur[dend - 1] == fed1[d0 + mm - 1]);
                } else {
                    assert(cur =~= pre);
                }
            }
            assert(strip_count(cur) == 0);
        }
    }
    let mid = Seq::new(mm as nat, |i: int| fed1[d0 + i]);
    assert(body_of::<V>(cur) =~= pre + mid);
    assert(body_vals_of::<V>(cur) =~= body_vals_of::<V>(pre) + cvals);
    lemma_bytes_of_append(body_vals_of::<V>(pre), cvals);
    assert(decode_of::<V>(cur) =~= decode_of::<V>(pre) + bytes_of(cvals));
}

} // verus!
