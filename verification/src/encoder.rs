//! Byte-to-text conversion: exact output length, one-shot encoding into a
//! caller-owned buffer, and a heap-returning form.

use vstd::prelude::*;
use vstd::arithmetic::div_mod::lemma_fundamental_div_mod;
use crate::errors::InvalidLengthError;
use crate::model::{
    encode_of, encode_syms, encoded_len_of, lemma_div_mod_small, lemma_encode_of_len,
    lemma_group_vals_bound, lemma_vals_of_append, lemma_vals_of_group, lemma_vals_of_len, lemma_vals_of_split,
    lemma_vals_of_tail, tail_syms_of, vals_of,
};
use crate::variant::{Variant, PAD};

verus! {

/// Relates `bytes.len() / 3` and `% 3` to the encoded length formula.
proof fn lemma_encoded_len_parts(n: int, padded: bool)
    requires
        n >= 0,
    ensures
        encoded_len_of(n as nat, padded) == if padded {
            4 * (n / 3) + (if n % 3 == 0 {
                0int
            } else {
                4int
            })
        } else {
            4 * (n / 3) + tail_syms_of(n % 3)
        },
{
    lemma_fundamental_div_mod(n, 3);
    let q = n / 3;
    let r = n % 3;
    if r == 0 {
        lemma_div_mod_small(q, 2, 3);
    } else if r == 1 {
        lemma_div_mod_small(q + 1, 0, 3);
    } else {
        lemma_div_mod_small(q + 1, 1, 3);
    }
}

/// The exact number of symbols `bytes` encodes to under `V`: `ceil(n/3)*4`
/// for a padded variant, `ceil(n*4/3)` for an unpadded one.  The result must
/// fit in `usize`.
pub fn encoded_len<V: Variant>(bytes: &[u8]) -> (r: usize)
    requires
        encoded_len_of(bytes@.len(), V::padded()) <= usize::MAX,
    ensures
        r == encoded_len_of(bytes@.len(), V::padded()),
{
    let n = bytes.len();
    let k = n / 3;
    let r3 = n % 3;
    proof {
        lemma_encoded_len_parts(n as int, V::padded());
    }
    if V::is_padded() {
        if r3 > 0 {
            (k + 1) * 4
        } else {
            k * 4
        }
    } else {
        if r3 == 0 {
            k * 4
        } else if r3 == 1 {
            k * 4 + 2
        } else {
            k * 4 + 3
        }
    }
}

/// The shared encoding engine: writes the full encoding of `src` into the
/// prefix of `dst`, which must be large enough, and leaves the rest of `dst`
/// unchanged.
fn encode_into<V: Variant>(src: &[u8], dst: &mut Vec<u8>) -> (n: usize)
    requires
        encoded_len_of(src@.len(), V::padded()) <= old(dst)@.len(),
    ensures
        n == encoded_len_of(src@.len(), V::padded()),
        final(dst)@.len() == old(dst)@.len(),
        final(dst)@.subrange(0, n as int) == encode_of::<V>(src@),
        final(dst)@.skip(n as int) == old(dst)@.skip(n as int),
{
    let ghost total = encoded_len_of(src@.len(), V::padded());
    let ghost vs = vals_of(src@);
    proof {
        lemma_encode_of_len::<V>(src@);
        lemma_vals_of_len(src@);
        lemma_encoded_len_parts(src@.len() as int, V::padded());
    }
    let n_bytes = src.len();
    let k = n_bytes / 3;
    let rem = n_bytes % 3;
    let cap = dst.len();
    proof {
        lemma_fundamental_div_mod(n_bytes as int, 3);
        lemma_vals_of_tail(src@, k as int);
    }
    let mut i: usize = 0;
    let mut o: usize = 0;
    while i < k
        invariant
            i <= k,
            o == 4 * i,
            n_bytes == src@.len(),
            k == n_bytes as int / 3,
            rem == n_bytes as int % 3,
            n_bytes == 3 * (k as int) + rem,
            vs == vals_of(src@),
            vs.len() == 4 * (k as int) + tail_syms_of(rem as int),
            total == encoded_len_of(src@.len(), V::padded()),
            vs.len() <= total,
            total <= cap,
            cap == dst@.len(),
            dst@.len() == old(dst)@.len(),
            forall|j: int| 0 <= j < o ==> #[trigger] dst@[j] == V::char_of(vs[j] as int),
            forall|j: int| o <= j < dst@.len() ==> #[trigger] dst@[j] == old(dst)@[j],
        decreases k - i,
    {
        let b0 = src[3 * i];
        let b1 = src[3 * i + 1];
        let b2 = src[3 * i + 2];
        proof {
            lemma_group_vals_bound(b0, b1, b2);
            lemma_vals_of_group(src@, i as int);
        }
        let s0 = V::encode_6bits(b0 >> 2);
        let s1 = V::encode_6bits(((b0 & 3) << 4) | (b1 >> 4));
        let s2 = V::encode_6bits(((b1 & 15) << 2) | (b2 >> 6));
        let s3 = V::encode_6bits(b2 & 63);
        dst.set(o, s0);
        dst.set(o + 1, s1);
        dst.set(o + 2, s2);
        dst.set(o + 3, s3);
        i = i + 1;
        o = o + 4;
    }
    if rem == 1 {
        let b0 = src[3 * k];
        proof {
            lemma_group_vals_bound(b0, 0, 0);
        }
        let s0 = V::encode_6bits(b0 >> 2);
        let s1 = V::encode_6bits((b0 & 3) << 4);
        dst.set(o, s0);
        dst.set(o + 1, s1);
        o = o + 2;
    } else if rem == 2 {
        let b0 = src[3 * k];
        let b1 = src[3 * k + 1];
        proof {
            lemma_group_vals_bound(b0, b1, 0);
        }
        let s0 = V::encode_6bits(b0 >> 2);
        let s1 = V::encode_6bits(((b0 & 3) << 4) | (b1 >> 4));
        let s2 = V::encode_6bits((b1 & 15) << 2);
        dst.set(o, s0);
        dst.set(o + 1, s1);
        dst.set(o + 2, s2);
        o = o + 3;
    }
    if V::is_padded() {
        if rem > 0 {
            dst.set(o, PAD);
            o = o + 1;
        }
        if rem == 1 {
            dst.set(o, PAD);
            o = o + 1;
        }
    }
    proof {
        assert(o == total);
        assert(dst@.subrange(0, o as int) =~= encode_of::<V>(src@));
        assert(dst@.skip(o as int) =~= old(dst)@.skip(o as int));
    }
    o
}

/// Encode `src` into the prefix of `dst`, returning the number of symbols
/// written.  Fails, leaving `dst` untouched, exactly when `dst` is smaller
/// than the encoded length.
pub fn encode<V: Variant>(src: &[u8], dst: &mut Vec<u8>) -> (r: Result<
    usize,
    InvalidLengthError,
>)
    ensures
        final(dst)@.len() == old(dst)@.len(),
        match r {
            Ok(n) => {
                &&& encoded_len_of(src@.len(), V::padded()) <= old(dst)@.len()
                &&& n == encoded_len_of(src@.len(), V::padded())
                &&& final(dst)@.subrange(0, n as int) == encode_of::<V>(src@)
                &&& final(dst)@.skip(n as int) == old(dst)@.skip(n as int)
            },
            Err(_) => {
                &&& encoded_len_of(src@.len(), V::padded()) > old(dst)@.len()
                &&& final(dst)@ == old(dst)@
            },
        },
{
    let n = src.len();
    let k = n / 3;
    let rem = n % 3;
    let dst_len = dst.len();
    proof {
        lemma_encoded_len_parts(n as int, V::padded());
        lemma_fundamental_div_mod(usize::MAX as int, 4);
    }
    if k > usize::MAX / 4 {
        // that many full groups can never fit in any buffer
        proof {
            assert(4 * (k as int) > usize::MAX);
            assert(encoded_len_of(src@.len(), V::padded()) > old(dst)@.len());
        }
        return Err(InvalidLengthError);
    }
    let base = k * 4;
    let tail: usize = if V::is_padded() {
        if rem > 0 {
            4
        } else {
            0
        }
    } else {
        if rem == 0 {
            0
        } else if rem == 1 {
            2
        } else {
            3
        }
    };
    if base > dst_len || tail > dst_len - base {
        return Err(InvalidLengthError);
    }
    Ok(encode_into::<V>(src, dst))
}

/// Incremental encoder: a fixed-capacity cache of at most two undigested
/// bytes, exclusively owned by the instance.  Each `feed` emits the symbols
/// of every 3-byte group it completes; `finish` flushes the final partial
/// group with the one-shot tail rule and consumes the encoder.
pub struct Encoder<V: Variant> {
    leftover: Vec<u8>,
    fed: Ghost<Seq<u8>>,
    variant: core::marker::PhantomData<V>,
}

impl<V: Variant> Encoder<V> {
    /// All bytes fed so far.
    pub closed spec fn fed_bytes(self) -> Seq<u8> {
        self.fed@
    }

    /// The length of the prefix of the fed bytes already turned to symbols.
    pub closed spec fn digested(self) -> int {
        self.fed@.len() - (self.fed@.len() % 3)
    }

    /// Well-formed: the cache holds exactly the 0 to 2 bytes past the last
    /// full 3-byte group.
    pub closed spec fn wf(self) -> bool {
        self.leftover@ == self.fed@.skip(self.digested())
    }

    /// The symbols the feeds have emitted so far: those of every full group.
    pub closed spec fn emitted(self) -> Seq<u8> {
        encode_syms::<V>(self.fed@.take(self.digested()))
    }

    /// A fresh encoder with an empty cache.
    pub fn new() -> (r: Self)
        ensures
            r.wf(),
            r.fed_bytes() == Seq::<u8>::empty(),
    {
        let r = Encoder {
            leftover: Vec::new(),
            fed: Ghost(Seq::empty()),
            variant: core::marker::PhantomData,
        };
        proof {
            assert(r.leftover@ =~= r.fed@.skip(r.digested()));
        }
        r
    }

    /// Feed more bytes: emits the symbols of every group they complete,
    /// leftover bytes first, and caches the new remainder.
    pub fn feed(&mut self, bytes: &[u8]) -> (out: Vec<u8>)
        requires
            old(self).wf(),
        ensures
            final(self).wf(),
            final(self).fed_bytes() == old(self).fed_bytes() + bytes@,
            old(self).emitted() + out@ == final(self).emitted(),
    {
        let ghost fed0 = self.fed@;
        let ghost d0 = old(self).digested();
        let mut combined: Vec<u8> = Vec::new();
        combined.extend_from_slice(self.leftover.as_slice());
        combined.extend_from_slice(bytes);
        self.fed = Ghost(fed0 + bytes@);
        let ghost fed1 = self.fed@;
        proof {
            lemma_fundamental_div_mod(fed0.len() as int, 3);
            assert(combined@ =~= fed1.skip(d0));
        }
        let n = combined.len();
        let k = n / 3;
        let rem = n % 3;
        proof {
            lemma_fundamental_div_mod(n as int, 3);
            lemma_vals_of_len(combined@);
            lemma_vals_of_split(combined@, k as int);
            lemma_vals_of_len(combined@.take(3 * (k as int)));
            lemma_div_mod_small(k as int, 0, 3);
        }
        let mut out: Vec<u8> = Vec::new();
        let mut i: usize = 0;
        while i < k
            invariant
                i <= k,
                k == combined@.len() as int / 3,
                rem == combined@.len() as int % 3,
                n == combined@.len(),
                n == 3 * (k as int) + rem,
                out@.len() == 4 * i,
                forall|j: int|
                    0 <= j < 4 * i ==> #[trigger] out@[j] == V::char_of(
                        vals_of(combined@)[j] as int,
                    ),
            decreases k - i,
        {
            let b0 = combined[3 * i];
            let b1 = combined[3 * i + 1];
            let b2 = combined[3 * i + 2];
            proof {
                lemma_group_vals_bound(b0, b1, b2);
                lemma_vals_of_group(combined@, i as int);
            }
            out.push(V::encode_6bits(b0 >> 2));
            out.push(V::encode_6bits(((b0 & 3) << 4) | (b1 >> 4)));
            out.push(V::encode_6bits(((b1 & 15) << 2) | (b2 >> 6)));
            out.push(V::encode_6bits(b2 & 63));
            i = i + 1;
        }
        let mut cache: Vec<u8> = Vec::new();
        if rem >= 1 {
            cache.push(combined[3 * k]);
        }
        if rem == 2 {
            cache.push(combined[3 * k + 1]);
        }
        self.leftover = cache;
        proof {
            let q0 = fed0.len() as int / 3;
            lemma_div_mod_small(q0 + k as int, rem as int, 3);
            assert(fed1.len() == 3 * (q0 + k as int) + rem);
            assert(self.digested() == d0 + 3 * (k as int));
            assert(self.leftover@ =~= fed1.skip(self.digested()));
            assert(fed1.take(d0) =~= fed0.take(d0));
            let a = fed1.take(d0);
            let c = combined@.take(3 * (k as int));
            assert(a + c =~= fed1.take(self.digested()));
            lemma_vals_of_append(a, c);
            lemma_vals_of_len(a);
            lemma_div_mod_small(q0, 0, 3);
            assert(old(self).emitted() + out@ =~= encode_syms::<V>(
                fed1.take(self.digested()),
            ));
        }
        out
    }

    /// Flush the final partial group, padded where the variant requires it,
    /// and consume the encoder: everything emitted, in order, is exactly the
    /// one-shot encoding of everything fed.
    pub fn finish(self) -> (out: Vec<u8>)
        requires
            self.wf(),
        ensures
            self.emitted() + out@ == encode_of::<V>(self.fed_bytes()),
    {
        let ghost fed = self.fed@;
        let ghost d = self.digested();
        proof {
            lemma_fundamental_div_mod(fed.len() as int, 3);
            lemma_vals_of_split(fed, fed.len() as int / 3);
            lemma_vals_of_len(fed);
            lemma_vals_of_len(fed.take(d));
            lemma_div_mod_small(fed.len() as int / 3, 0, 3);
            assert(fed.skip(d) == self.leftover@);
        }
        let rem = self.leftover.len();
        let mut out: Vec<u8> = Vec::new();
        if rem == 1 {
            let b0 = self.leftover[0];
            proof {
                lemma_group_vals_bound(b0, 0, 0);
            }
            out.push(V::encode_6bits(b0 >> 2));
            out.push(V::encode_6bits((b0 & 3) << 4));
        } else if rem == 2 {
            let b0 = self.leftover[0];
            let b1 = self.leftover[1];
            proof {
                lemma_group_vals_bound(b0, b1, 0);
            }
            out.push(V::encode_6bits(b0 >> 2));
            out.push(V::encode_6bits(((b0 & 3) << 4) | (b1 >> 4)));
            out.push(V::encode_6bits((b1 & 15) << 2));
        }
        if V::is_padded() {
            if rem > 0 {
                out.push(PAD);
            }
            if rem == 1 {
                out.push(PAD);
            }
        }
        proof {
            assert(self.emitted() + out@ =~= encode_of::<V>(fed));
        }
        out
    }
}

/// Encode `src` into a freshly allocated buffer of exactly the encoded
/// length.  The heap-returning accessory: same arithmetic, own allocation.
pub fn encode_vec<V: Variant>(src: &[u8]) -> (r: Vec<u8>)
    requires
        encoded_len_of(src@.len(), V::padded()) <= usize::MAX,
    ensures
        r@ == encode_of::<V>(src@),
{
    let n = encoded_len::<V>(src);
    let mut dst: Vec<u8> = vec![0u8; n];
    let written = encode_into::<V>(src, &mut dst);
    proof {
        assert(dst@ =~= encode_of::<V>(src@));
    }
    dst
}

} // verus!
