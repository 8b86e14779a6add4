//! Addition and subtraction in the ring, in the wrapping, overflowing,
//! checked and saturating call shapes.

use crate::algorithms::add::{add_limbs, sub_limbs};
use crate::lemma_weight_multiple;
use crate::nlimbs;
use crate::Uint;
use vstd::arithmetic::div_mod::{lemma_mod_multiples_vanish, lemma_small_mod};
use vstd::arithmetic::power2::pow2;
use vstd::prelude::*;

verus! {

/// A number and the number plus or minus a multiple of the modulus leave
/// the same remainder.
pub proof fn lemma_mod_shift(x: int, k: int, m: int)
    requires
        m > 0,
    ensures
        (x + k * m) % m == x % m,
        (x - k * m) % m == x % m,
{
    lemma_mod_multiples_vanish(k, x, m);
    lemma_mod_multiples_vanish(-k, x, m);
    assert(m * k + x == x + k * m) by (nonlinear_arith);
    assert(m * (-k) + x == x - k * m) by (nonlinear_arith);
}

impl<const BITS: usize, const LIMBS: usize> Uint<BITS, LIMBS> {
    /// Computes `self + rhs`. Returns the sum modulo `2^BITS` and whether
    /// the sum left the ring.
    #[must_use]
    pub fn overflowing_add(self, rhs: Self) -> (r: (Self, bool))
        requires
            self.wf(),
            rhs.wf(),
        ensures
            r.0.wf(),
            r.0@ == (self@ + rhs@) % pow2(BITS as nat),
            r.1 == (self@ + rhs@ >= pow2(BITS as nat)),
    {
        let (sum, carry) = add_limbs(self.as_limbs(), rhs.as_limbs(), false);
        let (value, cut) = Self::overflowing_from_limbs(sum);
        proof {
            lemma_weight_multiple(BITS);
            let m = pow2(BITS as nat) as int;
            let k = pow2((64 * nlimbs(BITS) - BITS) as nat) as int;
            if carry {
                lemma_mod_shift(crate::limbs::limbs_value(sum@) as int, k, m);
                assert(k * m == m * k) by (nonlinear_arith);
            }
        }
        (value, carry || cut)
    }

    /// Computes `self + rhs` modulo `2^BITS`.
    #[must_use]
    pub fn wrapping_add(self, rhs: Self) -> (r: Self)
        requires
            self.wf(),
            rhs.wf(),
        ensures
            r.wf(),
            r@ == (self@ + rhs@) % pow2(BITS as nat),
    {
        self.overflowing_add(rhs).0
    }

    /// Computes `self + rhs`, or `None` if the sum leaves the ring.
    #[must_use]
    pub fn checked_add(self, rhs: Self) -> (r: Option<Self>)
        requires
            self.wf(),
            rhs.wf(),
        ensures
            r is Some <==> self@ + rhs@ < pow2(BITS as nat),
            r matches Some(v) ==> v.wf() && v@ == self@ + rhs@,
    {
        let (value, overflow) = self.overflowing_add(rhs);
        if overflow {
            None
        } else {
            proof {
                lemma_small_mod(self@ + rhs@, pow2(BITS as nat));
            }
            Some(value)
        }
    }

    /// Computes `self + rhs`, or the largest value if the sum leaves the
    /// ring.
    #[must_use]
    pub fn saturating_add(self, rhs: Self) -> (r: Self)
        requires
            self.wf(),
            rhs.wf(),
        ensures
            r.wf(),
            r@ == if self@ + rhs@ < pow2(BITS as nat) {
                self@ + rhs@
            } else {
                (pow2(BITS as nat) - 1) as nat
            },
    {
        match self.checked_add(rhs) {
            Some(value) => value,
            None => Self::max_value(),
        }
    }

    /// Computes `self - rhs`. Returns the difference modulo `2^BITS` and
    /// whether `rhs` was the larger.
    #[must_use]
    pub fn overflowing_sub(self, rhs: Self) -> (r: (Self, bool))
        requires
            self.wf(),
            rhs.wf(),
        ensures
            r.0.wf(),
            r.0@ == (self@ - rhs@) % (pow2(BITS as nat) as int),
            r.1 == (self@ < rhs@),
    {
        let (diff, borrow) = sub_limbs(self.as_limbs(), rhs.as_limbs(), false);
        let (value, _) = Self::overflowing_from_limbs(diff);
        proof {
            lemma_weight_multiple(BITS);
            let m = pow2(BITS as nat) as int;
            let k = pow2((64 * nlimbs(BITS) - BITS) as nat) as int;
            crate::limbs::lemma_value_bound(diff@);
            if borrow {
                lemma_mod_shift(crate::limbs::limbs_value(diff@) as int, k, m);
                assert(k * m == m * k) by (nonlinear_arith);
            }
        }
        (value, borrow)
    }

    /// Computes `self - rhs` modulo `2^BITS`.
    #[must_use]
    pub fn wrapping_sub(self, rhs: Self) -> (r: Self)
        requires
            self.wf(),
            rhs.wf(),
        ensures
            r.wf(),
            r@ == (self@ - rhs@) % (pow2(BITS as nat) as int),
    {
        self.overflowing_sub(rhs).0
    }

    /// Computes `self - rhs`, or `None` if `rhs` is the larger.
    #[must_use]
    pub fn checked_sub(self, rhs: Self) -> (r: Option<Self>)
        requires
            self.wf(),
            rhs.wf(),
        ensures
            r is Some <==> self@ >= rhs@,
            r matches Some(v) ==> v.wf() && v@ == self@ - rhs@,
    {
        let (value, overflow) = self.overflowing_sub(rhs);
        if overflow {
            None
        } else {
            proof {
                self.lemma_wf();
                lemma_small_mod((self@ - rhs@) as nat, pow2(BITS as nat));
            }
            Some(value)
        }
    }

    /// Computes `self - rhs`, or zero if `rhs` is the larger.
    #[must_use]
    pub fn saturating_sub(self, rhs: Self) -> (r: Self)
        requires
            self.wf(),
            rhs.wf(),
        ensures
            r.wf(),
            r@ == if self@ >= rhs@ {
                self@ - rhs@
            } else {
                0
            },
    {
        match self.checked_sub(rhs) {
            Some(value) => value,
            None => Self::zero(),
        }
    }
}

} // verus!
