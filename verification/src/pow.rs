//! Exponentiation by squaring, in the ring and modulo a given number.

use crate::bits::{bit_at, lemma_bit_length_bounds};
use crate::Uint;
use vstd::arithmetic::div_mod::{lemma_mod_breakdown, lemma_mul_mod_noop_general, lemma_small_mod};
use vstd::arithmetic::power::{lemma0_pow, lemma_pow0, lemma_pow1, lemma_pow_adds, lemma_pow_positive, pow};
use vstd::arithmetic::power2::{lemma2_to64, lemma_pow2_pos, lemma_pow2_unfold, pow2};
use vstd::prelude::*;

verus! {

/// The bits of `e` below `i + 1` are those below `i` and bit `i`.
pub proof fn lemma_low_bits_succ(e: nat, i: nat)
    ensures
        e % pow2(i + 1) == e % pow2(i) + (if bit_at(e, i) {
            pow2(i)
        } else {
            0
        }),
{
    lemma_pow2_pos(i);
    lemma_pow2_unfold(i + 1);
    lemma_mod_breakdown(e as int, pow2(i) as int, 2);
    assert(pow2(i) * 2 == pow2(i + 1));
    let b = (e as int / pow2(i) as int) % 2;
    assert(pow2(i) as int * b == if b == 1 { pow2(i) as int } else { 0 }) by (nonlinear_arith)
        requires
            b == 0 || b == 1,
    ;
}

/// Powers of a natural number are natural numbers; those of zero are zero
/// or one, and those of any other are at least one.
pub proof fn lemma_pow_range(a: nat, e: nat)
    ensures
        pow(a as int, e) >= 0,
        a == 0 ==> pow(a as int, e) <= 1,
        a > 0 ==> pow(a as int, e) >= 1,
{
    if a == 0 {
        if e == 0 {
            lemma_pow0(0);
        } else {
            lemma0_pow(e);
        }
    } else {
        lemma_pow_positive(a as int, e);
    }
}

/// One step of exponentiation by squaring, on the exact powers: what
/// becomes of the remainders modulo `m` and of the overflow flags when the
/// running power `r` is multiplied by the running square `b`.
pub proof fn lemma_mul_step(r: int, b: int, m: int)
    requires
        m >= 2,
        r >= 0,
        b >= 0,
        r >= m ==> b >= 1,
        b >= m ==> r >= 1,
    ensures
        ((r % m) * (b % m)) % m == (r * b) % m,
        r * b >= m <==> r >= m || b >= m || (r % m) * (b % m) >= m,
{
    lemma_mul_mod_noop_general(r, b, m);
    if r < m {
        lemma_small_mod(r as nat, m as nat);
    }
    if b < m {
        lemma_small_mod(b as nat, m as nat);
    }
    if r >= m {
        assert(r * b >= m) by (nonlinear_arith)
            requires
                r >= m,
                b >= 1,
                m >= 2,
        ;
    }
    if b >= m {
        assert(r * b >= m) by (nonlinear_arith)
            requires
                b >= m,
                r >= 1,
                m >= 2,
        ;
    }
}

impl<const BITS: usize, const LIMBS: usize> Uint<BITS, LIMBS> {
    /// The laws of powers in the ring: the power of zero is the ring's one,
    /// the first power is the value itself, and the power of a sum is the
    /// product of the powers, all modulo `2^BITS`, as [`Self::pow`] and
    /// [`Self::wrapping_mul`] compute them.
    pub proof fn lemma_pow_laws(a: Self, m: Self, n: Self)
        requires
            a.wf(),
            m.wf(),
            n.wf(),
        ensures
            pow(a@ as int, 0) % (pow2(BITS as nat) as int) == 1int % (pow2(BITS as nat) as int),
            pow(a@ as int, 1) % (pow2(BITS as nat) as int) == a@,
            pow(a@ as int, m@ + n@) % (pow2(BITS as nat) as int) == ((pow(a@ as int, m@) % (pow2(
                BITS as nat,
            ) as int)) * (pow(a@ as int, n@) % (pow2(BITS as nat) as int))) % (pow2(
                BITS as nat,
            ) as int),
    {
        let md = pow2(BITS as nat) as int;
        lemma_pow2_pos(BITS as nat);
        lemma_pow0(a@ as int);
        lemma_pow1(a@ as int);
        a.lemma_wf();
        lemma_small_mod(a@, md as nat);
        lemma_pow_adds(a@ as int, m@, n@);
        lemma_mul_mod_noop_general(pow(a@ as int, m@), pow(a@ as int, n@), md);
    }


    /// Raises `self` to the power of `exp`. Returns the power modulo
    /// `2^BITS` and whether the power left the ring.
    ///
    /// In the ring of zero bits, whose one value is its own multiplicative
    /// identity, no power leaves the ring.
    #[must_use]
    pub fn overflowing_pow(self, exp: Self) -> (r: (Self, bool))
        requires
            self.wf(),
            exp.wf(),
        ensures
            r.0.wf(),
            r.0@ == pow(self@ as int, exp@) % (pow2(BITS as nat) as int),
            r.1 == (BITS > 0 && pow(self@ as int, exp@) >= pow2(BITS as nat)),
    {
        if BITS == 0 {
            proof {
                lemma2_to64();
            }
            return (self, false);
        }
        let ghost a = self@ as int;
        let ghost e = exp@;
        let ghost m = pow2(BITS as nat) as int;
        let mut result = Self::wrapping_from_u64(1);
        let mut base = self;
        let mut overflow = false;
        let mut base_overflow = false;
        let len = exp.bit_len();
        let mut i: usize = 0;
        proof {
            lemma2_to64();
            vstd::arithmetic::power2::lemma_pow2_strictly_increases(0, BITS as nat);
            lemma_small_mod(1, m as nat);
            lemma_pow0(a);
            lemma_pow1(a);
            self.lemma_wf();
            lemma_small_mod(a as nat, m as nat);
            assert(e % 1 == 0);
        }
        while i < len
            invariant
                i <= len,
                len == crate::bits::bit_length(e),
                BITS > 0,
                m == pow2(BITS as nat),
                m >= 2,
                a == self@,
                e == exp@,
                self.wf(),
                exp.wf(),
                result.wf(),
                base.wf(),
                result@ == pow(a, e % pow2(i as nat)) % m,
                overflow == (pow(a, e % pow2(i as nat)) >= m),
                base@ == pow(a, pow2(i as nat)) % m,
                base_overflow == (pow(a, pow2(i as nat)) >= m),
            decreases len - i,
        {
            let ghost low = e % pow2(i as nat);
            let ghost step = pow2(i as nat);
            proof {
                lemma_low_bits_succ(e, i as nat);
                lemma_pow_range(a as nat, low);
                lemma_pow_range(a as nat, step);
                lemma_pow_adds(a, low, step);
                lemma_pow_adds(a, step, step);
                lemma_pow2_unfold((i + 1) as nat);
                lemma_mul_step(pow(a, low), pow(a, step), m);
                lemma_mul_step(pow(a, step), pow(a, step), m);
            }
            if exp.bit(i) {
                let (product, o) = result.overflowing_mul(base);
                result = product;
                overflow = overflow || o || base_overflow;
            }
            let (square, o) = base.overflowing_mul(base);
            base = square;
            base_overflow = base_overflow || o;
            i += 1;
        }
        proof {
            lemma_bit_length_bounds(e);
            lemma_small_mod(e, pow2(len as nat));
        }
        (result, overflow)
    }

    /// Raises `self` to the power of `exp`, modulo `2^BITS`.
    #[must_use]
    pub fn pow(self, exp: Self) -> (r: Self)
        requires
            self.wf(),
            exp.wf(),
        ensures
            r.wf(),
            r@ == pow(self@ as int, exp@) % (pow2(BITS as nat) as int),
    {
        self.overflowing_pow(exp).0
    }

    /// Raises `self` to the power of `exp`, modulo `2^BITS`.
    #[must_use]
    pub fn wrapping_pow(self, exp: Self) -> (r: Self)
        requires
            self.wf(),
            exp.wf(),
        ensures
            r.wf(),
            r@ == pow(self@ as int, exp@) % (pow2(BITS as nat) as int),
    {
        self.overflowing_pow(exp).0
    }

    /// Raises `self` to the power of `exp`, or `None` if the power leaves
    /// the ring.
    #[must_use]
    pub fn checked_pow(self, exp: Self) -> (r: Option<Self>)
        requires
            self.wf(),
            exp.wf(),
        ensures
            r is Some <==> BITS == 0 || pow(self@ as int, exp@) < pow2(BITS as nat),
            r matches Some(v) ==> v.wf() && (BITS > 0 ==> v@ == pow(self@ as int, exp@)),
    {
        let (value, overflow) = self.overflowing_pow(exp);
        if overflow {
            None
        } else {
            proof {
                lemma_pow_range(self@, exp@);
                if BITS > 0 {
                    lemma_small_mod(pow(self@ as int, exp@) as nat, pow2(BITS as nat));
                }
            }
            Some(value)
        }
    }

    /// Raises `self` to the power of `exp`, or the largest value if the
    /// power leaves the ring.
    #[must_use]
    pub fn saturating_pow(self, exp: Self) -> (r: Self)
        requires
            self.wf(),
            exp.wf(),
        ensures
            r.wf(),
            BITS > 0 ==> r@ == if pow(self@ as int, exp@) < pow2(BITS as nat) {
                pow(self@ as int, exp@)
            } else {
                pow2(BITS as nat) - 1
            },
            BITS == 0 ==> r@ == 0,
    {
        match self.checked_pow(exp) {
            Some(value) => {
                proof {
                    value.lemma_wf();
                    lemma2_to64();
                }
                value
            },
            None => Self::max_value(),
        }
    }
}

} // verus!
