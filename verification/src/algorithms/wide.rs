//! A buffer of `2 N + 1` limbs that lives on the stack: room for the product
//! of two numbers of `N` limbs, and for one limb more, which a dividend needs
//! when it is shifted up.

use crate::limbs::{lemma_value_split, lemma_value_zero, lemma_value_zero_tail, limbs_value, zeros};
use vstd::prelude::*;

verus! {

/// `2 N + 1` limbs, least significant first.
#[derive(Clone, Copy, Debug)]
pub struct Wide<const N: usize> {
    low: [u64; N],
    high: [u64; N],
    top: u64,
}

impl<const N: usize> View for Wide<N> {
    type V = Seq<u64>;

    /// The limbs, least significant first.
    closed spec fn view(&self) -> Seq<u64> {
        self.low@ + self.high@ + seq![self.top]
    }
}

impl<const N: usize> Wide<N> {
    /// The buffer always has `2 N + 1` limbs.
    pub proof fn lemma_len(&self)
        ensures
            self@.len() == 2 * N + 1,
    {
    }

    /// All limbs zero.
    pub fn zero() -> (r: Self)
        ensures
            r@ == zeros((2 * N + 1) as nat),
            limbs_value(r@) == 0,
    {
        let r = Wide { low: [0u64; N], high: [0u64; N], top: 0 };
        proof {
            assert(r@ =~= zeros((2 * N + 1) as nat));
            lemma_value_zero(r@);
        }
        r
    }

    /// The buffer that holds `low`, above it `high`, and above that `top`.
    pub fn from_parts(low: [u64; N], high: [u64; N], top: u64) -> (r: Self)
        ensures
            r@ == low@ + high@ + seq![top],
            limbs_value(r@) == limbs_value(low@) + crate::limbs::weight(N as nat) * limbs_value(
                high@,
            ) + crate::limbs::weight(2 * N as nat) * top,
    {
        let r = Wide { low, high, top };
        proof {
            let w = crate::limbs::weight(N as nat);
            lemma_value_split(r@, N as int);
            assert(r@.take(N as int) =~= low@);
            let rest = r@.skip(N as int);
            assert(rest =~= high@.push(top));
            crate::limbs::lemma_value_push(high@, top);
            crate::limbs::lemma_weight_adds(N as nat, N as nat);
            let h = limbs_value(high@);
            let t = top as nat;
            assert(w * (h + t * w) == w * h + (w * w) * t) by (nonlinear_arith);
        }
        r
    }

    /// The number of limbs up to the highest that is not zero.
    pub fn significant_limbs(&self) -> (m: usize)
        requires
            2 * N < usize::MAX,
        ensures
            m <= 2 * N + 1,
            forall|k: int| m <= k < 2 * N + 1 ==> self@[k] == 0,
            m > 0 ==> self@[m - 1] != 0,
    {
        let mut m: usize = 2 * N + 1;
        while m > 0 && self.get(m - 1) == 0
            invariant
                m <= 2 * N + 1,
                2 * N < usize::MAX,
                forall|k: int| m <= k < 2 * N + 1 ==> self@[k] == 0,
            decreases m,
        {
            m -= 1;
        }
        m
    }

    /// The number is the low half, the high half and the last limb, each
    /// at its weight.
    pub proof fn lemma_parts(&self)
        ensures
            limbs_value(self@) == limbs_value(self@.take(N as int)) + crate::limbs::weight(
                N as nat,
            ) * limbs_value(self@.subrange(N as int, 2 * N)) + crate::limbs::weight(2 * N as nat)
                * self@[2 * N],
    {
        let w = crate::limbs::weight(N as nat);
        lemma_value_split(self@, N as int);
        let rest = self@.skip(N as int);
        assert(rest =~= self.high@.push(self.top));
        assert(self@.subrange(N as int, 2 * N) =~= self.high@);
        crate::limbs::lemma_value_push(self.high@, self.top);
        crate::limbs::lemma_weight_adds(N as nat, N as nat);
        let h = limbs_value(self.high@);
        let t = self.top as nat;
        assert(w * (h + t * w) == w * h + (w * w) * t) by (nonlinear_arith);
    }

    /// The number `low`, in a wider buffer.
    pub fn from_low(low: [u64; N]) -> (r: Self)
        ensures
            r@ == low@ + zeros((N + 1) as nat),
            r@.take(N as int) == low@,
            limbs_value(r@) == limbs_value(low@),
    {
        let r = Wide { low, high: [0u64; N], top: 0 };
        proof {
            assert(r@ =~= low@ + zeros((N + 1) as nat));
            assert(r@.take(N as int) =~= low@);
            lemma_value_zero_tail(r@, N as int);
        }
        r
    }

    /// Limb `i`.
    pub fn get(&self, i: usize) -> (r: u64)
        requires
            i < 2 * N + 1,
        ensures
            r == self@[i as int],
    {
        if i < N {
            self.low[i]
        } else if i - N < N {
            self.high[i - N]
        } else {
            self.top
        }
    }

    /// Replaces limb `i`.
    pub fn set(&mut self, i: usize, limb: u64)
        requires
            i < 2 * N + 1,
        ensures
            final(self)@ == old(self)@.update(i as int, limb),
    {
        if i < N {
            self.low[i] = limb;
        } else if i - N < N {
            self.high[i - N] = limb;
        } else {
            self.top = limb;
        }
        assert(self@ =~= old(self)@.update(i as int, limb));
    }

    /// The low `N` limbs.
    pub fn low(&self) -> (r: [u64; N])
        ensures
            r@ == self@.take(N as int),
    {
        assert(self.low@ =~= self@.take(N as int));
        self.low
    }

    /// The `N` limbs above the low ones.
    pub fn high(&self) -> (r: [u64; N])
        ensures
            r@ == self@.subrange(N as int, 2 * N),
    {
        assert(self.high@ =~= self@.subrange(N as int, 2 * N));
        self.high
    }
}

} // verus!
