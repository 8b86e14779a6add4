//! Logarithms.

use crate::algorithms::compare::less_than;
use crate::Uint;
use vstd::arithmetic::div_mod::{lemma_div_denominator, lemma_fundamental_div_mod};
use vstd::arithmetic::power::{lemma_pow0, pow};
use vstd::arithmetic::power2::{lemma2_to64, lemma_pow2_strictly_increases, lemma_pow2_unfold, pow2};
use vstd::prelude::*;

verus! {

/// A power of a base of two or more is no less than the same power of two.
pub proof fn lemma_pow_at_least_pow2(b: int, n: nat)
    requires
        b >= 2,
    ensures
        pow(b, n) >= pow2(n),
    decreases n,
{
    reveal(pow);
    lemma2_to64();
    if n > 0 {
        lemma_pow_at_least_pow2(b, (n - 1) as nat);
        lemma_pow2_unfold(n);
        let p = pow(b, (n - 1) as nat);
        let q = pow2((n - 1) as nat) as int;
        assert(b * p >= 2 * q) by (nonlinear_arith)
            requires
                b >= 2,
                p >= q,
                q >= 0,
        ;
    }
}

/// Dividing by a power of `b` and then by `b` is dividing by the next
/// power. A quotient of one or more says that the divisor is no more than
/// the dividend, and a quotient below `b` that the dividend is below `b`
/// times the divisor.
pub proof fn lemma_log_step(x: int, b: int, k: nat)
    requires
        x >= 0,
        b >= 2,
    ensures
        pow(b, k) > 0,
        pow(b, k + 1) == pow(b, k) * b,
        (x / pow(b, k)) / b == x / pow(b, k + 1),
        x / pow(b, k) >= 1 ==> pow(b, k) <= x,
        x / pow(b, k) < b ==> x < pow(b, k + 1),
{
    reveal(pow);
    vstd::arithmetic::power::lemma_pow_positive(b, k);
    let p = pow(b, k);
    assert(b * p == p * b) by (nonlinear_arith);
    lemma_div_denominator(x, p, b);
    lemma_fundamental_div_mod(x, p);
    let q = x / p;
    let r = x % p;
    if q >= 1 {
        assert(p * q >= p) by (nonlinear_arith)
            requires
                q >= 1,
                p > 0,
        ;
    }
    if q < b {
        assert(p * q + p <= p * b) by (nonlinear_arith)
            requires
                q + 1 <= b,
                p > 0,
        ;
    }
}

impl<const BITS: usize, const LIMBS: usize> Uint<BITS, LIMBS> {
    /// Whether `self` is less than `rhs`.
    #[must_use]
    pub fn lt(&self, rhs: &Self) -> (r: bool)
        ensures
            r == (self@ < rhs@),
    {
        less_than(self.as_limbs(), rhs.as_limbs())
    }

    /// The logarithm of `self` in the given base, rounded down: the `k`
    /// with `base^k <= self < base^(k + 1)`. It is found by dividing by the
    /// base until what is left is below it.
    ///
    /// Returns `None` if `self` is zero or the base is less than two.
    #[must_use]
    pub fn checked_log(self, base: Self) -> (r: Option<usize>)
        requires
            self.wf(),
            base.wf(),
        ensures
            r is None <==> self@ == 0 || base@ < 2,
            r matches Some(k) ==> k < BITS && pow(base@ as int, k as nat) <= self@ < pow(
                base@ as int,
                (k + 1) as nat,
            ),
    {
        let base_len = base.bit_len();
        proof {
            lemma2_to64();
            if base_len > 2 {
                lemma_pow2_strictly_increases(1, (base_len - 1) as nat);
            }
        }
        if self.is_zero() || base_len < 2 {
            return None;
        }
        let ghost x = self@ as int;
        let ghost b = base@ as int;
        proof {
            lemma_pow0(b);
            self.lemma_wf();
        }
        let mut rest = self;
        let mut k: usize = 0;
        while !rest.lt(&base)
            invariant
                x == self@,
                b == base@,
                b >= 2,
                x < pow2(BITS as nat),
                self.wf(),
                base.wf(),
                rest.wf(),
                rest@ == x / pow(b, k as nat),
                rest@ >= 1,
                k < BITS,
            decreases rest@,
        {
            proof {
                lemma_log_step(x, b, k as nat);
                lemma_log_step(x, b, (k + 1) as nat);
                lemma_pow_at_least_pow2(b, (k + 1) as nat);
                lemma_fundamental_div_mod(rest@ as int, b);
                let q = rest@ as int / b;
                assert(q >= 1 && q < rest@) by (nonlinear_arith)
                    requires
                        rest@ == b * q + rest@ as int % b,
                        0 <= rest@ as int % b < b,
                        rest@ >= b,
                        b >= 2,
                ;
                if k + 1 >= BITS {
                    if k + 1 > BITS {
                        lemma_pow2_strictly_increases(BITS as nat, (k + 1) as nat);
                    }
                    assert(false);
                }
            }
            rest = rest.div_rem(base).0;
            k += 1;
        }
        proof {
            lemma_log_step(x, b, k as nat);
        }
        Some(k)
    }
}

} // verus!
