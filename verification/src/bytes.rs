//! Conversion between a value and its bytes, in either byte order.

use crate::bits::lemma_limb_field;
use crate::lemma_weight_multiple;
use crate::limbs::{lemma_value_update, lemma_value_zero, limbs_value, weight};
use crate::nlimbs;
use crate::Uint;
use vstd::arithmetic::div_mod::{lemma_basic_div, lemma_mod_breakdown, lemma_small_mod};
use vstd::arithmetic::power2::{
    lemma2_to64, lemma2_to64_rest, lemma_pow2_adds, lemma_pow2_pos, lemma_pow2_strictly_increases,
    pow2,
};
use vstd::bits::{lemma_u64_shl_is_mul, lemma_u64_shr_is_div};
use vstd::prelude::*;

verus! {

/// Number of bytes needed to hold `bits` bits: `bits / 8`, rounded up.
pub open spec fn nbytes_spec(bits: usize) -> usize {
    ((bits + 7) / 8) as usize
}

/// Number of bytes required to represent the given number of bits.
#[verifier::when_used_as_spec(nbytes_spec)]
pub fn nbytes(bits: usize) -> (n: usize)
    ensures
        n == nbytes_spec(bits),
        n == (bits + 7) / 8,
        8 * n >= bits,
{
    if bits % 8 == 0 {
        bits / 8
    } else {
        bits / 8 + 1
    }
}

/// The number that the bytes stand for, least significant byte first.
pub open spec fn bytes_value_le(bytes: Seq<u8>) -> nat
    decreases bytes.len(),
{
    if bytes.len() == 0 {
        0
    } else {
        bytes_value_le(bytes.drop_last()) + bytes.last() as nat * pow2((8 * (bytes.len() - 1)) as nat)
    }
}

/// The number that the bytes stand for, most significant byte first.
pub open spec fn bytes_value_be(bytes: Seq<u8>) -> nat {
    bytes_value_le(bytes.reverse())
}

/// The first `k + 1` bytes stand for what the first `k` stand for, and
/// byte `k` at its weight.
pub proof fn lemma_bytes_take_succ(bytes: Seq<u8>, k: int)
    requires
        0 <= k < bytes.len(),
    ensures
        bytes_value_le(bytes.take(k + 1)) == bytes_value_le(bytes.take(k)) + bytes[k] as nat * pow2(
            (8 * k) as nat,
        ),
{
    assert(bytes.take(k + 1).drop_last() =~= bytes.take(k));
}

/// No bytes stand for zero.
pub proof fn lemma_bytes_take_none(bytes: Seq<u8>)
    ensures
        bytes_value_le(bytes.take(0)) == 0,
{
    assert(bytes.take(0) =~= Seq::<u8>::empty());
}

/// More bytes never stand for less.
pub proof fn lemma_bytes_monotonic(bytes: Seq<u8>, k: int)
    requires
        0 <= k <= bytes.len(),
    ensures
        bytes_value_le(bytes.take(k)) <= bytes_value_le(bytes),
    decreases bytes.len() - k,
{
    if k < bytes.len() {
        lemma_bytes_monotonic(bytes.drop_last(), k);
        assert(bytes.drop_last().take(k) =~= bytes.take(k));
    } else {
        assert(bytes.take(k) =~= bytes);
    }
}

/// The bits of `x` below `8 (k + 1)` are those below `8 k` and the byte
/// above them.
pub proof fn lemma_low_bytes_succ(x: nat, k: nat)
    ensures
        x % pow2(8 * (k + 1)) == x % pow2(8 * k) + pow2(8 * k) * ((x / pow2(8 * k)) % 256),
{
    lemma2_to64();
    lemma_pow2_pos(8 * k);
    lemma_pow2_adds(8 * k, 8);
    lemma_mod_breakdown(x as int, pow2(8 * k) as int, 256);
}

impl<const BITS: usize, const LIMBS: usize> Uint<BITS, LIMBS> {
    /// Byte `k` of the value, counted from the least significant; zero
    /// above the limbs.
    fn byte(&self, k: usize) -> (b: u8)
        requires
            self.wf(),
        ensures
            b == (self@ / pow2((8 * k) as nat)) % 256,
    {
        proof {
            lemma2_to64();
            lemma2_to64_rest();
        }
        if k / 8 >= LIMBS {
            proof {
                self.lemma_wf();
                lemma_weight_multiple(BITS);
                if 8 * k > 64 * LIMBS {
                    lemma_pow2_strictly_increases((64 * LIMBS) as nat, (8 * k) as nat);
                }
                lemma_basic_div(self@ as int, pow2((8 * k) as nat) as int);
            }
            return 0;
        }
        let limb = self.as_limbs()[k / 8];
        let shift = 8 * (k % 8);
        proof {
            lemma_limb_field(self.limb_seq(), (k / 8) as int, shift as nat, 8);
            lemma_u64_shr_is_div(limb, shift as u64);
            let y = limb >> (shift as u64);
            assert(y & 0xff == y % 256) by (bit_vector);
        }
        ((limb >> shift) & 0xff) as u8
    }

    /// The value as `BYTES` bytes, least significant first, where that many
    /// bytes hold `BITS` bits.
    #[must_use]
    pub fn to_le_bytes<const BYTES: usize>(&self) -> (bytes: [u8; BYTES])
        requires
            self.wf(),
            8 * BYTES >= BITS,
        ensures
            bytes_value_le(bytes@) == self@,
    {
        let mut bytes = [0u8; BYTES];
        let mut k: usize = 0;
        proof {
            lemma_bytes_take_none(bytes@);
            lemma2_to64();
            assert(self@ % 1 == 0);
        }
        while k < BYTES
            invariant
                k <= BYTES,
                self.wf(),
                bytes_value_le(bytes@.take(k as int)) == self@ % pow2((8 * k) as nat),
            decreases BYTES - k,
        {
            let ghost before = bytes@;
            let b = self.byte(k);
            bytes[k] = b;
            proof {
                assert(bytes@.take(k as int) =~= before.take(k as int));
                lemma_bytes_take_succ(bytes@, k as int);
                lemma_low_bytes_succ(self@, k as nat);
                let p = pow2((8 * k) as nat) as int;
                let bi = b as int;
                assert(bi * p == p * bi) by (nonlinear_arith);
            }
            k += 1;
        }
        proof {
            assert(bytes@.take(BYTES as int) =~= bytes@);
            self.lemma_wf();
            if 8 * BYTES > BITS {
                lemma_pow2_strictly_increases(BITS as nat, (8 * BYTES) as nat);
            }
            lemma_small_mod(self@, pow2((8 * BYTES) as nat));
        }
        bytes
    }

    /// The value as `BYTES` bytes, most significant first, where that many
    /// bytes hold `BITS` bits.
    #[must_use]
    pub fn to_be_bytes<const BYTES: usize>(&self) -> (bytes: [u8; BYTES])
        requires
            self.wf(),
            8 * BYTES >= BITS,
        ensures
            bytes_value_be(bytes@) == self@,
    {
        let low_first: [u8; BYTES] = self.to_le_bytes();
        let mut bytes = [0u8; BYTES];
        let mut k: usize = 0;
        while k < BYTES
            invariant
                k <= BYTES,
                forall|i: int| 0 <= i < k ==> bytes@[i] == low_first@[BYTES - 1 - i],
            decreases BYTES - k,
        {
            bytes[k] = low_first[BYTES - 1 - k];
            k += 1;
        }
        proof {
            assert(bytes@.reverse() =~= low_first@);
        }
        bytes
    }

    /// The value that the bytes stand for, in the given byte order, or
    /// `None` where it does not fit `BITS` bits.
    fn try_from_bytes(bytes: &[u8], big_endian: bool) -> (r: Option<Self>)
        requires
            LIMBS == nlimbs(BITS),
        ensures
            r is Some <==> bytes_value_le(if big_endian { bytes@.reverse() } else { bytes@ })
                < pow2(BITS as nat),
            r matches Some(v) ==> v.wf() && v@ == bytes_value_le(
                if big_endian {
                    bytes@.reverse()
                } else {
                    bytes@
                },
            ),
    {
        let ghost le = if big_endian { bytes@.reverse() } else { bytes@ };
        let len = bytes.len();
        let mut limbs = [0u64; LIMBS];
        let mut k: usize = 0;
        proof {
            lemma2_to64();
            lemma2_to64_rest();
            lemma_value_zero(limbs@);
            lemma_bytes_take_none(le);
            assert(le.len() == len);
            lemma_weight_multiple(BITS);
        }
        while k < len
            invariant
                k <= len,
                len == bytes@.len(),
                le.len() == len,
                le == if big_endian { bytes@.reverse() } else { bytes@ },
                LIMBS == nlimbs(BITS),
                pow2(BITS as nat) <= weight(LIMBS as nat),
                limbs_value(limbs@) == bytes_value_le(le.take(k as int)),
                forall|i: int| k / 8 < i < LIMBS ==> limbs@[i] == 0,
                k / 8 < LIMBS ==> limbs@[k as int / 8] < pow2((8 * (k % 8)) as nat),
            decreases len - k,
        {
            let b = if big_endian { bytes[len - 1 - k] } else { bytes[k] };
            assert(b == le[k as int]);
            proof {
                lemma_bytes_take_succ(le, k as int);
                lemma_bytes_monotonic(le, k + 1);
                lemma2_to64();
                lemma2_to64_rest();
            }
            if k / 8 < LIMBS {
                let i = k / 8;
                let shift = 8 * (k % 8);
                let old = limbs[i];
                proof {
                    let ps = pow2(shift as nat) as int;
                    let bi = b as int;
                    lemma_pow2_pos(shift as nat);
                    lemma_pow2_adds(shift as nat, 8);
                    lemma_pow2_adds((64 * i) as nat, shift as nat);
                    if shift + 8 < 64 {
                        lemma_pow2_strictly_increases((shift + 8) as nat, 64);
                    }
                    assert(bi * ps <= 255 * ps) by (nonlinear_arith)
                        requires
                            0 <= bi <= 255,
                            ps > 0,
                    ;
                    lemma_u64_shl_is_mul(b as u64, shift as u64);
                }
                let limb = old + ((b as u64) << shift);
                let ghost before = limbs@;
                limbs[i] = limb;
                proof {
                    lemma_value_update(before, i as int, limb);
                    let ps = pow2(shift as nat) as int;
                    let bi = b as int;
                    let w = weight(i as nat) as int;
                    assert((old + bi * ps) * w == old * w + bi * (w * ps)) by (nonlinear_arith);
                }
            } else if b != 0 {
                proof {
                    let p = pow2((8 * k) as nat) as int;
                    let bi = b as int;
                    if 8 * k > 64 * LIMBS {
                        lemma_pow2_strictly_increases((64 * LIMBS) as nat, (8 * k) as nat);
                    }
                    assert(bi * p >= p) by (nonlinear_arith)
                        requires
                            bi >= 1,
                            p >= 0,
                    ;
                }
                return None;
            } else {
                assert(0nat * pow2((8 * k) as nat) == 0);
            }
            k += 1;
        }
        proof {
            assert(le.take(len as int) =~= le);
        }
        Self::checked_from_limbs(limbs)
    }

    /// The value that the bytes stand for, least significant byte first,
    /// or `None` where it does not fit `BITS` bits.
    #[must_use]
    pub fn try_from_le_slice(bytes: &[u8]) -> (r: Option<Self>)
        requires
            LIMBS == nlimbs(BITS),
        ensures
            r is Some <==> bytes_value_le(bytes@) < pow2(BITS as nat),
            r matches Some(v) ==> v.wf() && v@ == bytes_value_le(bytes@),
    {
        Self::try_from_bytes(bytes, false)
    }

    /// The value that the bytes stand for, most significant byte first, or
    /// `None` where it does not fit `BITS` bits.
    #[must_use]
    pub fn try_from_be_slice(bytes: &[u8]) -> (r: Option<Self>)
        requires
            LIMBS == nlimbs(BITS),
        ensures
            r is Some <==> bytes_value_be(bytes@) < pow2(BITS as nat),
            r matches Some(v) ==> v.wf() && v@ == bytes_value_be(bytes@),
    {
        Self::try_from_bytes(bytes, true)
    }

    /// The value that the bytes stand for, least significant byte first.
    ///
    /// The value must fit `BITS` bits.
    #[must_use]
    pub fn from_le_bytes<const BYTES: usize>(bytes: [u8; BYTES]) -> (r: Self)
        requires
            LIMBS == nlimbs(BITS),
            bytes_value_le(bytes@) < pow2(BITS as nat),
        ensures
            r.wf(),
            r@ == bytes_value_le(bytes@),
    {
        match Self::try_from_bytes(bytes.as_slice(), false) {
            Some(value) => value,
            None => vstd::pervasive::unreached(),
        }
    }

    /// The value that the bytes stand for, most significant byte first.
    ///
    /// The value must fit `BITS` bits.
    #[must_use]
    pub fn from_be_bytes<const BYTES: usize>(bytes: [u8; BYTES]) -> (r: Self)
        requires
            LIMBS == nlimbs(BITS),
            bytes_value_be(bytes@) < pow2(BITS as nat),
        ensures
            r.wf(),
            r@ == bytes_value_be(bytes@),
    {
        match Self::try_from_bytes(bytes.as_slice(), true) {
            Some(value) => value,
            None => vstd::pervasive::unreached(),
        }
    }

    /// Round trip: the bytes of a value, in either order and however many,
    /// convert back to that value.
    pub proof fn lemma_bytes_round_trip(value: Self, bytes: Seq<u8>, back: Self)
        requires
            value.wf(),
            back.wf(),
            back@ == bytes_value_be(bytes) && bytes_value_be(bytes) == value@ || back@
                == bytes_value_le(bytes) && bytes_value_le(bytes) == value@,
        ensures
            back == value,
    {
        back.lemma_len();
        value.lemma_len();
        crate::limbs::lemma_value_unique(back.limb_seq(), value.limb_seq());
        back.lemma_ext(&value);
    }
}

} // verus!
