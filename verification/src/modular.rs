//! Arithmetic modulo a number that the caller gives.

use crate::algorithms::div::div_rem_limbs;
use crate::algorithms::mul::mul_limbs;
use crate::bits::{bit_length, lemma_bit_length_bounds};
use crate::div::DivisionByZero;
use crate::lemma_canonical_bound;
use crate::limbs::limbs_value;
use crate::mul::lemma_limbs_fit;
use crate::pow::lemma_low_bits_succ;
use crate::Uint;
use vstd::arithmetic::div_mod::{
    lemma_fundamental_div_mod_converse, lemma_mul_mod_noop_general, lemma_small_mod,
};
use vstd::arithmetic::power::{lemma_pow0, lemma_pow1, lemma_pow_adds, pow};
use vstd::arithmetic::power2::{lemma2_to64, lemma_pow2_unfold, pow2};
use vstd::prelude::*;

verus! {

impl<const BITS: usize, const LIMBS: usize> Uint<BITS, LIMBS> {
    /// Computes `self * rhs` modulo `modulus`, from the full product.
    ///
    /// The modulus may not be zero.
    #[must_use]
    pub fn mul_rem(self, rhs: Self, modulus: Self) -> (r: Self)
        requires
            self.wf(),
            rhs.wf(),
            modulus.wf(),
            modulus@ != 0,
        ensures
            r.wf(),
            r@ == (self@ * rhs@) % modulus@,
    {
        proof {
            lemma_limbs_fit(BITS);
        }
        let product = mul_limbs(self.as_limbs(), rhs.as_limbs());
        let (quotient, remainder) = div_rem_limbs(&product, modulus.as_limbs());
        proof {
            modulus.lemma_wf();
            lemma_canonical_bound(BITS, remainder@);
            lemma_fundamental_div_mod_converse(
                (self@ * rhs@) as int,
                modulus@ as int,
                limbs_value(quotient@) as int,
                limbs_value(remainder@) as int,
            );
        }
        Self::from_limbs(remainder)
    }

    /// Computes `self * rhs` modulo `modulus`, or signals a division by
    /// zero where the modulus is zero.
    pub fn mul_mod(self, rhs: Self, modulus: Self) -> (r: Result<Self, DivisionByZero>)
        requires
            self.wf(),
            rhs.wf(),
            modulus.wf(),
        ensures
            r is Err <==> modulus@ == 0,
            r matches Ok(v) ==> v.wf() && v@ == (self@ * rhs@) % modulus@,
    {
        if modulus.is_zero() {
            Err(DivisionByZero)
        } else {
            Ok(self.mul_rem(rhs, modulus))
        }
    }

    /// Raises `self` to the power of `exp` modulo `modulus`, reducing after
    /// every multiplication, or signals a division by zero where the
    /// modulus is zero.
    pub fn pow_mod(self, exp: Self, modulus: Self) -> (r: Result<Self, DivisionByZero>)
        requires
            self.wf(),
            exp.wf(),
            modulus.wf(),
        ensures
            r is Err <==> modulus@ == 0,
            r matches Ok(v) ==> v.wf() && v@ == pow(self@ as int, exp@) % (modulus@ as int),
    {
        if modulus.is_zero() {
            return Err(DivisionByZero);
        }
        let ghost a = self@ as int;
        let ghost e = exp@;
        let ghost m = modulus@ as int;
        proof {
            modulus.lemma_wf();
            lemma2_to64();
            if BITS == 0 {
                assert(false);
            }
            vstd::arithmetic::power2::lemma_pow2_strictly_increases(0, BITS as nat);
            lemma_small_mod(1, pow2(BITS as nat));
            lemma_pow0(a);
            lemma_pow1(a);
            assert(e % 1 == 0);
        }
        let mut result = Self::wrapping_from_u64(1).div_rem(modulus).1;
        let mut base = self.div_rem(modulus).1;
        let len = exp.bit_len();
        let mut i: usize = 0;
        while i < len
            invariant
                i <= len,
                len == bit_length(e),
                a == self@,
                e == exp@,
                m == modulus@,
                m > 0,
                exp.wf(),
                modulus.wf(),
                result.wf(),
                base.wf(),
                result@ == pow(a, e % pow2(i as nat)) % m,
                base@ == pow(a, pow2(i as nat)) % m,
            decreases len - i,
        {
            let ghost low = e % pow2(i as nat);
            let ghost step = pow2(i as nat);
            proof {
                lemma_low_bits_succ(e, i as nat);
                lemma_pow_adds(a, low, step);
                lemma_pow_adds(a, step, step);
                lemma_pow2_unfold((i + 1) as nat);
                lemma_mul_mod_noop_general(pow(a, low), pow(a, step), m);
                lemma_mul_mod_noop_general(pow(a, step), pow(a, step), m);
            }
            if exp.bit(i) {
                result = result.mul_rem(base, modulus);
            }
            base = base.mul_rem(base, modulus);
            i += 1;
        }
        proof {
            lemma_bit_length_bounds(e);
            lemma_small_mod(e, pow2(len as nat));
        }
        Ok(result)
    }
}

} // verus!
