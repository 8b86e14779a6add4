//! Division with remainder.

use crate::algorithms::div::div_rem_limbs;
use crate::algorithms::wide::Wide;
use crate::lemma_canonical_bound;
use crate::lemma_weight_multiple;
use crate::limbs::{lemma_value_small, limbs_value};
use crate::mul::lemma_limbs_fit;
use crate::Uint;
use vstd::arithmetic::div_mod::lemma_fundamental_div_mod_converse;
use vstd::prelude::*;

verus! {

/// The error of a division, or of a reduction, by zero.
#[derive(Clone, Copy, Debug, PartialEq, Eq)]
pub struct DivisionByZero;

impl<const BITS: usize, const LIMBS: usize> Uint<BITS, LIMBS> {
    /// Whether the value is zero.
    #[must_use]
    pub fn is_zero(&self) -> (r: bool)
        ensures
            r == (self@ == 0),
    {
        crate::algorithms::compare::is_zero_limbs(self.as_limbs())
    }

    /// Computes `self / rhs` and `self % rhs`: the one quotient and
    /// remainder with `self == quotient * rhs + remainder` and
    /// `remainder < rhs`.
    ///
    /// The divisor may not be zero.
    #[must_use]
    pub fn div_rem(self, rhs: Self) -> (r: (Self, Self))
        requires
            self.wf(),
            rhs.wf(),
            rhs@ != 0,
        ensures
            r.0.wf(),
            r.1.wf(),
            self@ == r.0@ * rhs@ + r.1@,
            r.1@ < rhs@,
            r.0@ == self@ / rhs@,
            r.1@ == self@ % rhs@,
    {
        proof {
            lemma_limbs_fit(BITS);
        }
        let dividend = Wide::from_low(*self.as_limbs());
        let (quotient, remainder) = div_rem_limbs(&dividend, rhs.as_limbs());
        let low = quotient.low();
        proof {
            quotient.lemma_len();
            self.lemma_wf();
            rhs.lemma_wf();
            lemma_weight_multiple(BITS);
            let a = self@ as int;
            let b = rhs@ as int;
            let q = limbs_value(quotient@) as int;
            let r = limbs_value(remainder@) as int;
            assert(q <= q * b) by (nonlinear_arith)
                requires
                    b >= 1,
                    q >= 0,
            ;
            lemma_value_small(quotient@, LIMBS as int);
            lemma_canonical_bound(BITS, low@);
            lemma_canonical_bound(BITS, remainder@);
            lemma_fundamental_div_mod_converse(a, b, q, r);
        }
        (Self::from_limbs(low), Self::from_limbs(remainder))
    }

    /// Computes `self / rhs` and `self % rhs`, or signals a division by
    /// zero.
    pub fn checked_div_rem(self, rhs: Self) -> (r: Result<(Self, Self), DivisionByZero>)
        requires
            self.wf(),
            rhs.wf(),
        ensures
            r is Err <==> rhs@ == 0,
            r matches Ok(qr) ==> {
                &&& qr.0.wf()
                &&& qr.1.wf()
                &&& self@ == qr.0@ * rhs@ + qr.1@
                &&& qr.1@ < rhs@
                &&& qr.0@ == self@ / rhs@
                &&& qr.1@ == self@ % rhs@
            },
    {
        if rhs.is_zero() {
            Err(DivisionByZero)
        } else {
            Ok(self.div_rem(rhs))
        }
    }

    /// Computes `self / rhs`, or `None` if `rhs` is zero.
    #[must_use]
    pub fn checked_div(self, rhs: Self) -> (r: Option<Self>)
        requires
            self.wf(),
            rhs.wf(),
        ensures
            r is None <==> rhs@ == 0,
            r matches Some(q) ==> q.wf() && q@ == self@ / rhs@,
    {
        if rhs.is_zero() {
            None
        } else {
            Some(self.div_rem(rhs).0)
        }
    }

    /// Computes `self % rhs`, or `None` if `rhs` is zero.
    #[must_use]
    pub fn checked_rem(self, rhs: Self) -> (r: Option<Self>)
        requires
            self.wf(),
            rhs.wf(),
        ensures
            r is None <==> rhs@ == 0,
            r matches Some(m) ==> m.wf() && m@ == self@ % rhs@,
    {
        if rhs.is_zero() {
            None
        } else {
            Some(self.div_rem(rhs).1)
        }
    }
}

} // verus!
