//! Multiplication in the ring, in the wrapping, overflowing, checked and
//! saturating call shapes.

use crate::add::lemma_mod_shift;
use crate::algorithms::compare::is_zero_limbs;
use crate::algorithms::mul::mul_limbs;
use crate::lemma_weight_multiple;
use crate::limbs::{lemma_value_split, lemma_value_zero_tail, limbs_value, weight};
use crate::nlimbs;
use crate::Uint;
use vstd::arithmetic::div_mod::lemma_small_mod;
use vstd::arithmetic::power2::pow2;
use vstd::prelude::*;

verus! {

/// The limbs of a value, twice over and one more, are still counted by a
/// `usize`.
pub proof fn lemma_limbs_fit(bits: usize)
    ensures
        2 * nlimbs(bits) + 1 < usize::MAX,
{
}

impl<const BITS: usize, const LIMBS: usize> Uint<BITS, LIMBS> {
    /// Computes `self * rhs`. Returns the product modulo `2^BITS` and
    /// whether the product left the ring.
    #[must_use]
    pub fn overflowing_mul(self, rhs: Self) -> (r: (Self, bool))
        requires
            self.wf(),
            rhs.wf(),
        ensures
            r.0.wf(),
            r.0@ == (self@ * rhs@) % pow2(BITS as nat),
            r.1 == (self@ * rhs@ >= pow2(BITS as nat)),
    {
        proof {
            lemma_limbs_fit(BITS);
        }
        let product = mul_limbs(self.as_limbs(), rhs.as_limbs());
        let low = product.low();
        let high = product.high();
        let (value, cut) = Self::overflowing_from_limbs(low);
        let spill = !is_zero_limbs(&high);
        proof {
            product.lemma_len();
            lemma_weight_multiple(BITS);
            lemma_value_split(product@, LIMBS as int);
            let rest = product@.skip(LIMBS as int);
            lemma_value_zero_tail(rest, LIMBS as int);
            assert(rest.take(LIMBS as int) =~= high@);
            let m = pow2(BITS as nat) as int;
            let k = pow2((64 * nlimbs(BITS) - BITS) as nat) as int;
            let h = limbs_value(high@) as int;
            let l = limbs_value(low@) as int;
            assert(weight(LIMBS as nat) * h == (h * k) * m) by (nonlinear_arith)
                requires
                    weight(LIMBS as nat) == m * k,
            ;
            lemma_mod_shift(l, h * k, m);
            vstd::arithmetic::power2::lemma_pow2_pos((64 * nlimbs(BITS) - BITS) as nat);
            if h > 0 {
                assert((h * k) * m >= m) by (nonlinear_arith)
                    requires
                        h >= 1,
                        k >= 1,
                        m >= 1,
                ;
            } else {
                assert((h * k) * m == 0) by (nonlinear_arith)
                    requires
                        h == 0,
                ;
            }
        }
        (value, cut || spill)
    }

    /// Computes `self * rhs` modulo `2^BITS`.
    #[must_use]
    pub fn wrapping_mul(self, rhs: Self) -> (r: Self)
        requires
            self.wf(),
            rhs.wf(),
        ensures
            r.wf(),
            r@ == (self@ * rhs@) % pow2(BITS as nat),
    {
        self.overflowing_mul(rhs).0
    }

    /// Computes `self * rhs`, or `None` if the product leaves the ring.
    #[must_use]
    pub fn checked_mul(self, rhs: Self) -> (r: Option<Self>)
        requires
            self.wf(),
            rhs.wf(),
        ensures
            r is Some <==> self@ * rhs@ < pow2(BITS as nat),
            r matches Some(v) ==> v.wf() && v@ == self@ * rhs@,
    {
        let (value, overflow) = self.overflowing_mul(rhs);
        if overflow {
            None
        } else {
            proof {
                lemma_small_mod(self@ * rhs@, pow2(BITS as nat));
            }
            Some(value)
        }
    }

    /// Computes `self * rhs`, or the largest value if the product leaves
    /// the ring.
    #[must_use]
    pub fn saturating_mul(self, rhs: Self) -> (r: Self)
        requires
            self.wf(),
            rhs.wf(),
        ensures
            r.wf(),
            r@ == if self@ * rhs@ < pow2(BITS as nat) {
                self@ * rhs@
            } else {
                (pow2(BITS as nat) - 1) as nat
            },
    {
        match self.checked_mul(rhs) {
            Some(value) => value,
            None => Self::max_value(),
        }
    }
}

} // verus!
