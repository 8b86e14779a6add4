//! Fixed-width unsigned integers: the ring of integers modulo `2^BITS`,
//! stored as an array of 64-bit limbs, least significant limb first.

use vstd::arithmetic::power2::{lemma2_to64, lemma2_to64_rest, lemma_pow2_adds, lemma_pow2_pos, pow2};
use vstd::arithmetic::div_mod::{lemma_fundamental_div_mod, lemma_fundamental_div_mod_converse};
use vstd::bits::{
    lemma_u64_low_bits_mask_is_mod, lemma_u64_pow2_no_overflow, lemma_u64_shl_is_mul,
    low_bits_mask,
};
use vstd::prelude::*;

pub mod add;
pub mod algorithms;
pub mod base_convert;
pub mod bit_vec;
pub mod bits;
pub mod bytes;
pub mod div;
pub mod limbs;
pub mod log;
pub mod modular;
pub mod mul;
pub mod pow;

pub use crate::base_convert::BaseConvertError;
pub use crate::bit_vec::Bits;
pub use crate::bytes::nbytes;
pub use crate::div::DivisionByZero;

use crate::limbs::{
    lemma_radix, lemma_value_bound, lemma_value_zero, lemma_weight_succ,
    limbs_value, weight, zeros,
};

verus! {

/// Number of 64-bit limbs needed to hold `bits` bits: `bits / 64`, rounded up.
pub open spec fn nlimbs_spec(bits: usize) -> usize {
    ((bits + 63) / 64) as usize
}

/// Number of `u64` limbs required to represent the given number of bits.
#[verifier::when_used_as_spec(nlimbs_spec)]
pub fn nlimbs(bits: usize) -> (n: usize)
    ensures
        n == nlimbs_spec(bits),
        n == (bits + 63) / 64,
{
    if bits % 64 == 0 {
        bits / 64
    } else {
        bits / 64 + 1
    }
}

/// Number of bits of the highest limb that a `bits`-bit value uses: between
/// 1 and 64 for `bits > 0`.
pub open spec fn top_bits(bits: usize) -> nat {
    if bits == 0 {
        0
    } else if bits % 64 == 0 {
        64
    } else {
        (bits % 64) as nat
    }
}

/// The highest limb of a `bits`-bit value is at most this: its used bits all
/// set, `2^top_bits(bits) - 1`.
pub open spec fn mask_spec(bits: usize) -> u64 {
    (pow2(top_bits(bits)) - 1) as u64
}

/// Mask to apply to the highest limb to get the correct number of bits.
#[verifier::when_used_as_spec(mask_spec)]
pub fn mask(bits: usize) -> (m: u64)
    ensures
        m == mask_spec(bits),
        m == pow2(top_bits(bits)) - 1,
{
    proof {
        lemma2_to64();
        lemma2_to64_rest();
    }
    if bits == 0 {
        return 0;
    }
    let b = bits % 64;
    if b == 0 {
        u64::MAX
    } else {
        proof {
            lemma_u64_pow2_no_overflow(b as nat);
            lemma_u64_shl_is_mul(1, b as u64);
        }
        (1u64 << b) - 1
    }
}

/// Canonical form of a `bits`-bit value: `nlimbs(bits)` limbs, and in the
/// highest of them no bit set above the mask.
pub open spec fn is_canonical(bits: usize, s: Seq<u64>) -> bool {
    &&& s.len() == nlimbs(bits)
    &&& bits > 0 ==> s.last() <= mask(bits)
}

/// The bits of a `bits`-bit value are those of its full limbs and of its
/// highest limb.
pub proof fn lemma_top_bits(bits: usize)
    requires
        bits > 0,
    ensures
        1 <= top_bits(bits) <= 64,
        nlimbs(bits) >= 1,
        bits == 64 * (nlimbs(bits) - 1) + top_bits(bits),
        pow2(bits as nat) == weight((nlimbs(bits) - 1) as nat) * pow2(top_bits(bits)),
        mask(bits) + 1 == pow2(top_bits(bits)),
{
    let k = (nlimbs(bits) - 1) as nat;
    lemma_pow2_adds(64 * k, top_bits(bits));
    lemma2_to64();
    lemma2_to64_rest();
    if top_bits(bits) < 64 {
        lemma_u64_pow2_no_overflow(top_bits(bits));
    }
}

/// Limbs of the right number are in canonical form exactly when they stand
/// for a number below `2^bits`.
pub proof fn lemma_canonical_bound(bits: usize, s: Seq<u64>)
    requires
        s.len() == nlimbs(bits),
    ensures
        is_canonical(bits, s) <==> limbs_value(s) < pow2(bits as nat),
{
    if bits == 0 {
        lemma2_to64();
    } else {
        lemma_top_bits(bits);
        lemma_value_bound(s.drop_last());
        let w = weight((nlimbs(bits) - 1) as nat);
        let p = pow2(top_bits(bits));
        let lo = limbs_value(s.drop_last());
        let x = s.last() as nat;
        assert(lo + x * w < w * p <==> x < p) by (nonlinear_arith)
            requires
                lo < w,
        ;
    }
}

/// The weight just above the limbs of a `bits`-bit value is a multiple of
/// `2^bits`.
pub proof fn lemma_weight_multiple(bits: usize)
    ensures
        64 * nlimbs(bits) >= bits,
        weight(nlimbs(bits) as nat) == pow2(bits as nat) * pow2((64 * nlimbs(bits) - bits) as nat),
        pow2(bits as nat) <= weight(nlimbs(bits) as nat),
        pow2(bits as nat) > 0,
{
    let r = (64 * nlimbs(bits) - bits) as nat;
    lemma_pow2_adds(bits as nat, r);
    lemma_pow2_pos(bits as nat);
    lemma_pow2_pos(r);
    let m = pow2(bits as nat);
    let k = pow2(r);
    assert(m <= m * k) by (nonlinear_arith)
        requires
            k > 0,
    ;
}

/// Cutting the highest limb down to its used bits takes the number modulo
/// `2^bits`.
pub proof fn lemma_truncate_value(bits: usize, s: Seq<u64>, top: u64)
    requires
        bits > 0,
        s.len() == nlimbs(bits),
        top as nat == s.last() as nat % pow2(top_bits(bits)),
    ensures
        is_canonical(bits, s.update(s.len() - 1, top)),
        limbs_value(s.update(s.len() - 1, top)) == limbs_value(s) % pow2(bits as nat),
{
    lemma_top_bits(bits);
    lemma2_to64();
    lemma2_to64_rest();
    let t = s.update(s.len() - 1, top);
    assert(t.drop_last() =~= s.drop_last());
    lemma_value_bound(s.drop_last());
    let w = weight((nlimbs(bits) - 1) as nat) as int;
    let p = pow2(top_bits(bits)) as int;
    let lo = limbs_value(s.drop_last()) as int;
    let x = s.last() as int;
    lemma_fundamental_div_mod(x, p);
    let q = x / p;
    let r = x % p;
    assert(lo + x * w == q * (w * p) + (lo + r * w)) by (nonlinear_arith)
        requires
            x == p * q + r,
    ;
    assert(0 <= lo + r * w < w * p) by (nonlinear_arith)
        requires
            0 <= lo < w,
            0 <= r < p,
    ;
    lemma_fundamental_div_mod_converse(lo + x * w, w * p, q, lo + r * w);
}

/// `n` limbs with every bit set stand for `2^(64 n) - 1`.
pub proof fn lemma_value_ones(s: Seq<u64>)
    requires
        forall|i: int| 0 <= i < s.len() ==> s[i] == u64::MAX,
    ensures
        limbs_value(s) == weight(s.len()) - 1,
    decreases s.len(),
{
    if s.len() == 0 {
        lemma_radix();
    } else {
        let k = (s.len() - 1) as nat;
        lemma_value_ones(s.drop_last());
        lemma_weight_succ(k);
        let w = weight(k);
        assert((w - 1) + 0xffff_ffff_ffff_ffff * w == w * 0x1_0000_0000_0000_0000 - 1)
            by (nonlinear_arith);
    }
}

/// The ring of numbers modulo `2^BITS`.
///
/// Notable differences from the built-in unsigned integers:
///
/// * The arithmetic methods wrap, unless their name says otherwise.
/// * `checked_shl`, `overflowing_shl` and their like report overflow when a
///   set bit is shifted out, not when the amount reaches the bit size.
#[derive(Clone, Copy, Debug, PartialEq, Eq, Hash)]
pub struct Uint<const BITS: usize, const LIMBS: usize> {
    limbs: [u64; LIMBS],
}

impl<const BITS: usize, const LIMBS: usize> View for Uint<BITS, LIMBS> {
    type V = nat;

    /// The number that the value stands for.
    open spec fn view(&self) -> nat {
        limbs_value(self.limb_seq())
    }
}

impl<const BITS: usize, const LIMBS: usize> Uint<BITS, LIMBS> {
    /// The limbs of this value, least significant first.
    pub closed spec fn limb_seq(&self) -> Seq<u64> {
        self.limbs@
    }

    /// The type's invariant: `LIMBS` is `nlimbs(BITS)`, and the unused high
    /// bits of the highest limb are zero.
    pub open spec fn wf(&self) -> bool {
        is_canonical(BITS, self.limb_seq())
    }

    /// A value always has `LIMBS` limbs.
    pub proof fn lemma_len(&self)
        ensures
            self.limb_seq().len() == LIMBS,
    {
    }

    /// A value of a type with the right `LIMBS` is well formed exactly when
    /// its number is below `2^BITS`.
    pub proof fn lemma_wf(&self)
        ensures
            self.wf() <==> LIMBS == nlimbs(BITS) && self@ < pow2(BITS as nat),
    {
        if LIMBS == nlimbs(BITS) {
            lemma_canonical_bound(BITS, self.limb_seq());
        }
    }

    /// Values with the same limbs are the same value.
    pub proof fn lemma_ext(&self, other: &Self)
        requires
            self.limb_seq() == other.limb_seq(),
        ensures
            *self == *other,
    {
        assert(self.limbs =~= other.limbs);
    }

    /// The value zero, as contracts speak of it.
    pub closed spec fn zero_spec() -> Self {
        Uint { limbs: vstd::array::spec_array_fill_for_copy_type(0u64) }
    }

    /// The largest value, as contracts speak of it.
    pub closed spec fn max_value_spec() -> Self {
        let ones: [u64; LIMBS] = vstd::array::spec_array_fill_for_copy_type(u64::MAX);
        if BITS > 0 && LIMBS > 0 {
            Uint { limbs: vstd::array::spec_array_update(ones, LIMBS - 1, mask(BITS)) }
        } else {
            Uint { limbs: ones }
        }
    }

    /// What the constants are: zero has all limbs zero and is the smallest
    /// value; the largest value has every limb filled with ones and the
    /// highest masked, which makes it `2^BITS − 1`.
    pub proof fn lemma_constants()
        ensures
            Self::zero().limb_seq() == zeros(LIMBS as nat),
            Self::zero()@ == 0,
            Self::min_value() == Self::zero(),
            forall|i: int| 0 <= i < LIMBS - 1 ==> Self::max_value().limb_seq()[i] == u64::MAX,
            BITS > 0 && LIMBS > 0 ==> Self::max_value().limb_seq()[LIMBS - 1] == mask(BITS),
            LIMBS == nlimbs(BITS) ==> Self::zero().wf() && Self::max_value().wf(),
            LIMBS == nlimbs(BITS) ==> Self::max_value()@ == pow2(BITS as nat) - 1,
    {
        let z = Self::zero();
        assert(z.limbs@ =~= zeros(LIMBS as nat));
        lemma_value_zero(z.limbs@);
        let m = Self::max_value();
        if LIMBS == nlimbs(BITS) {
            if BITS > 0 {
                lemma_top_bits(BITS);
                lemma_value_ones(m.limbs@.drop_last());
                let w = weight((LIMBS - 1) as nat);
                let p = pow2(top_bits(BITS));
                assert((w - 1) + (p - 1) * w == w * p - 1) by (nonlinear_arith);
            } else {
                lemma2_to64();
            }
        }
    }

    /// The value zero: all limbs are zero. It exists in every [`Uint`] type.
    #[verifier::when_used_as_spec(zero_spec)]
    pub fn zero() -> (r: Self)
        ensures
            r == Self::zero(),
            r.limb_seq() == zeros(LIMBS as nat),
            r@ == 0,
            LIMBS == nlimbs(BITS) ==> r.wf(),
    {
        let r = Self { limbs: [0u64; LIMBS] };
        proof {
            Self::lemma_constants();
            assert(r.limbs =~= Self::zero().limbs);
        }
        r
    }

    /// The smallest value that can be represented by this integer type.
    /// Synonym for [`Self::zero`].
    #[verifier::when_used_as_spec(zero_spec)]
    pub fn min_value() -> (r: Self)
        ensures
            r == Self::zero(),
            r@ == 0,
            LIMBS == nlimbs(BITS) ==> r.wf(),
    {
        Self::zero()
    }

    /// The largest value that can be represented by this integer type,
    /// `2^BITS − 1`: every limb filled with ones, and the highest masked.
    #[verifier::when_used_as_spec(max_value_spec)]
    pub fn max_value() -> (r: Self)
        ensures
            r == Self::max_value(),
            LIMBS == nlimbs(BITS) ==> r.wf() && r@ == pow2(BITS as nat) - 1,
    {
        let mut limbs = [u64::MAX; LIMBS];
        if BITS > 0 && LIMBS > 0 {
            limbs[LIMBS - 1] = mask(BITS);
        }
        let r = Self { limbs };
        proof {
            Self::lemma_constants();
            assert(r.limbs =~= Self::max_value().limbs);
        }
        r
    }

    /// View the array of limbs.
    #[must_use]
    pub fn as_limbs(&self) -> (r: &[u64; LIMBS])
        ensures
            r@ == self.limb_seq(),
    {
        &self.limbs
    }

    /// Access the array of limbs. What is written through the reference
    /// becomes the value's limbs as it stands: the caller keeps the canonical
    /// form.
    #[must_use]
    pub fn as_limbs_mut(&mut self) -> (r: &mut [u64; LIMBS])
        ensures
            r@ == old(self).limb_seq(),
            final(self).limb_seq() == final(r)@,
    {
        &mut self.limbs
    }

    /// Convert to an array of limbs.
    ///
    /// Limbs are least significant first.
    #[must_use]
    pub fn into_limbs(self) -> (r: [u64; LIMBS])
        ensures
            r@ == self.limb_seq(),
    {
        self.limbs
    }

    /// Construct a value from its limbs, least significant first.
    ///
    /// `LIMBS` must be `nlimbs(BITS)`, and the value must fit the bit size:
    /// the highest limb may not exceed `mask(BITS)`.
    #[must_use]
    pub fn from_limbs(limbs: [u64; LIMBS]) -> (r: Self)
        requires
            is_canonical(BITS, limbs@),
        ensures
            r.limb_seq() == limbs@,
            r@ == limbs_value(limbs@),
            r.wf(),
    {
        Self::assert_valid();
        Self { limbs }
    }

    /// Construct a value from limbs that may not fit the bit size: the
    /// number that they stand for modulo `2^BITS`, and whether anything was
    /// cut off.
    #[must_use]
    pub fn overflowing_from_limbs(limbs: [u64; LIMBS]) -> (r: (Self, bool))
        requires
            LIMBS == nlimbs(BITS),
        ensures
            r.0.wf(),
            r.0@ == limbs_value(limbs@) % pow2(BITS as nat),
            r.1 == (limbs_value(limbs@) >= pow2(BITS as nat)),
    {
        let mut limbs = limbs;
        let ghost given = limbs@;
        proof {
            lemma_canonical_bound(BITS, given);
        }
        if BITS == 0 {
            proof {
                lemma2_to64();
            }
            return (Self { limbs }, false);
        }
        let m = mask(BITS);
        let top = limbs[LIMBS - 1];
        let overflow = top > m;
        proof {
            lemma_top_bits(BITS);
            let tb = top_bits(BITS);
            if tb < 64 {
                lemma_u64_pow2_no_overflow(tb);
                lemma_u64_low_bits_mask_is_mod(top, tb);
                assert(low_bits_mask(tb) == pow2(tb) - 1);
            } else {
                lemma2_to64();
                lemma2_to64_rest();
                assert(top & 0xffff_ffff_ffff_ffff == top) by (bit_vector);
                assert(top as nat % pow2(64) == top);
            }
            lemma_truncate_value(BITS, given, top & m);
        }
        limbs[LIMBS - 1] = top & m;
        (Self { limbs }, overflow)
    }

    /// Construct a value from limbs that may not fit the bit size: `None`
    /// when the number that they stand for is `2^BITS` or more.
    #[must_use]
    pub fn checked_from_limbs(limbs: [u64; LIMBS]) -> (r: Option<Self>)
        requires
            LIMBS == nlimbs(BITS),
        ensures
            r is Some <==> limbs_value(limbs@) < pow2(BITS as nat),
            r matches Some(v) ==> v.wf() && v.limb_seq() == limbs@,
    {
        proof {
            lemma_canonical_bound(BITS, limbs@);
        }
        if BITS > 0 && limbs[LIMBS - 1] > mask(BITS) {
            None
        } else {
            Some(Self::from_limbs(limbs))
        }
    }

    /// Construct a value from a primitive integer: the integer modulo
    /// `2^BITS`, and whether it was `2^BITS` or more.
    #[must_use]
    pub fn overflowing_from_u64(value: u64) -> (r: (Self, bool))
        requires
            LIMBS == nlimbs(BITS),
        ensures
            r.0.wf(),
            r.0@ == value as nat % pow2(BITS as nat),
            r.1 == (value >= pow2(BITS as nat)),
    {
        let mut limbs = [0u64; LIMBS];
        if LIMBS == 0 {
            proof {
                lemma2_to64();
                lemma_value_zero(limbs@);
            }
            return (Self { limbs }, value != 0);
        }
        limbs[0] = value;
        proof {
            crate::limbs::lemma_value_zero_tail(limbs@, 1);
            crate::limbs::lemma_value_single(limbs@.take(1));
        }
        Self::overflowing_from_limbs(limbs)
    }

    /// Construct a value from a primitive integer, modulo `2^BITS`.
    #[must_use]
    pub fn wrapping_from_u64(value: u64) -> (r: Self)
        requires
            LIMBS == nlimbs(BITS),
        ensures
            r.wf(),
            r@ == value as nat % pow2(BITS as nat),
    {
        Self::overflowing_from_u64(value).0
    }

    /// Construct a value from a primitive integer: `None` when the integer
    /// is `2^BITS` or more.
    #[must_use]
    pub fn checked_from_u64(value: u64) -> (r: Option<Self>)
        requires
            LIMBS == nlimbs(BITS),
        ensures
            r is Some <==> value < pow2(BITS as nat),
            r matches Some(v) ==> v.wf() && v@ == value,
    {
        let (v, overflow) = Self::overflowing_from_u64(value);
        if overflow {
            None
        } else {
            proof {
                vstd::arithmetic::div_mod::lemma_small_mod(value as nat, pow2(BITS as nat));
            }
            Some(v)
        }
    }

    /// Construct a value from a slice of exactly `LIMBS` limbs, least
    /// significant first, under the conditions of [`Self::from_limbs`].
    #[must_use]
    pub fn from_limbs_slice(slice: &[u64]) -> (r: Self)
        requires
            is_canonical(BITS, slice@),
            slice@.len() == LIMBS,
        ensures
            r.limb_seq() == slice@,
            r@ == limbs_value(slice@),
            r.wf(),
    {
        let mut limbs = [0u64; LIMBS];
        let mut i: usize = 0;
        while i < LIMBS
            invariant
                i <= LIMBS,
                slice@.len() == LIMBS,
                forall|j: int| 0 <= j < i ==> limbs@[j] == slice@[j],
            decreases LIMBS - i,
        {
            limbs[i] = slice[i];
            i += 1;
        }
        assert(limbs@ =~= slice@);
        Self::from_limbs(limbs)
    }

    /// The pairing of the type's parameters that every constructor relies
    /// on: `LIMBS` is the number of limbs that `BITS` bits need.
    pub fn assert_valid()
        requires
            LIMBS == nlimbs(BITS),
    {
    }
}

impl<const BITS: usize, const LIMBS: usize> Default for Uint<BITS, LIMBS> {
    fn default() -> (r: Self)
        ensures
            r == Self::zero(),
            r@ == 0,
            LIMBS == nlimbs(BITS) ==> r.wf(),
    {
        Self::zero()
    }
}

} // verus!
