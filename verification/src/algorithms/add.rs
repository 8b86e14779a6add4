//! Ripple-carry addition and borrow-propagating subtraction.

use crate::algorithms::word::{adc, sbb};
use crate::limbs::{
    lemma_radix, lemma_value_take_all, lemma_value_take_succ, lemma_weight_succ, limbs_value,
    weight,
};
use vstd::prelude::*;

verus! {

/// Adds two numbers of `N` limbs and a carry. Returns the low `N` limbs of
/// the sum and the carry out of the highest limb.
pub fn add_limbs<const N: usize>(a: &[u64; N], b: &[u64; N], carry_in: bool) -> (r: (
    [u64; N],
    bool,
))
    ensures
        limbs_value(r.0@) + (if r.1 { weight(N as nat) } else { 0 }) == limbs_value(a@)
            + limbs_value(b@) + (if carry_in { 1nat } else { 0 }),
{
    let mut sum = [0u64; N];
    let mut carry = carry_in;
    let mut i: usize = 0;
    proof {
        lemma_value_take_all(a@);
        lemma_value_take_all(b@);
        lemma_value_take_all(sum@);
        lemma_radix();
    }
    while i < N
        invariant
            i <= N,
            limbs_value(sum@.take(i as int)) + (if carry { weight(i as nat) } else { 0 })
                == limbs_value(a@.take(i as int)) + limbs_value(b@.take(i as int)) + (if carry_in {
                1nat
            } else {
                0
            }),
        decreases N - i,
    {
        let ghost before = sum@;
        let ghost carry_before = carry;
        let (limb, c) = adc(a[i], b[i], carry);
        sum[i] = limb;
        carry = c;
        proof {
            assert(sum@.take(i as int) =~= before.take(i as int));
            lemma_value_take_succ(sum@, i as int);
            lemma_value_take_succ(a@, i as int);
            lemma_value_take_succ(b@, i as int);
            lemma_weight_succ(i as nat);
            let w = weight(i as nat);
            let x = a@[i as int] as nat;
            let y = b@[i as int] as nat;
            let l = limb as nat;
            let ci: nat = if carry_before { 1 } else { 0 };
            let co: nat = if c { 1 } else { 0 };
            assert(l + co * 0x1_0000_0000_0000_0000 == x + y + ci);
            assert(l * w + co * (w * 0x1_0000_0000_0000_0000) == x * w + y * w + ci * w)
                by (nonlinear_arith)
                requires
                    l + co * 0x1_0000_0000_0000_0000 == x + y + ci,
            ;
        }
        i += 1;
    }
    proof {
        lemma_value_take_all(a@);
        lemma_value_take_all(b@);
        lemma_value_take_all(sum@);
    }
    (sum, carry)
}

/// Subtracts a number of `N` limbs and a borrow from another. Returns the
/// low `N` limbs of the difference and the borrow out of the highest limb.
pub fn sub_limbs<const N: usize>(a: &[u64; N], b: &[u64; N], borrow_in: bool) -> (r: (
    [u64; N],
    bool,
))
    ensures
        limbs_value(r.0@) - (if r.1 { weight(N as nat) as int } else { 0 }) == limbs_value(a@)
            - limbs_value(b@) - (if borrow_in { 1int } else { 0 }),
{
    let mut diff = [0u64; N];
    let mut borrow = borrow_in;
    let mut i: usize = 0;
    proof {
        lemma_value_take_all(a@);
        lemma_value_take_all(b@);
        lemma_value_take_all(diff@);
        lemma_radix();
    }
    while i < N
        invariant
            i <= N,
            limbs_value(diff@.take(i as int)) - (if borrow { weight(i as nat) as int } else { 0 })
                == limbs_value(a@.take(i as int)) - limbs_value(b@.take(i as int)) - (
            if borrow_in {
                1int
            } else {
                0
            }),
        decreases N - i,
    {
        let ghost before = diff@;
        let ghost borrow_before = borrow;
        let (limb, c) = sbb(a[i], b[i], borrow);
        diff[i] = limb;
        borrow = c;
        proof {
            assert(diff@.take(i as int) =~= before.take(i as int));
            lemma_value_take_succ(diff@, i as int);
            lemma_value_take_succ(a@, i as int);
            lemma_value_take_succ(b@, i as int);
            lemma_weight_succ(i as nat);
            let w = weight(i as nat) as int;
            let x = a@[i as int] as int;
            let y = b@[i as int] as int;
            let l = limb as int;
            let ci: int = if borrow_before { 1 } else { 0 };
            let co: int = if c { 1 } else { 0 };
            assert(l - co * 0x1_0000_0000_0000_0000 == x - y - ci);
            assert(l * w - co * (w * 0x1_0000_0000_0000_0000) == x * w - y * w - ci * w)
                by (nonlinear_arith)
                requires
                    l - co * 0x1_0000_0000_0000_0000 == x - y - ci,
            ;
        }
        i += 1;
    }
    proof {
        lemma_value_take_all(a@);
        lemma_value_take_all(b@);
        lemma_value_take_all(diff@);
    }
    (diff, borrow)
}

} // verus!
