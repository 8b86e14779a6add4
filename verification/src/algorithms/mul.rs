//! Schoolbook multiplication.

use crate::algorithms::wide::Wide;
use crate::algorithms::word::mac;
use crate::limbs::{
    lemma_radix, lemma_value_subrange_succ, lemma_value_take_all, lemma_value_take_succ,
    lemma_value_update, lemma_value_window, lemma_weight_adds, lemma_weight_succ, limbs_value,
    weight,
};
use vstd::prelude::*;

verus! {

/// Adds `x` times the low `n` limbs of `b` to the `n` limbs of `acc` that
/// start at limb `off`. Returns the carry out of that window; the limbs
/// outside it stay as they are.
pub fn add_mul_at<const N: usize>(acc: &mut Wide<N>, off: usize, b: &[u64; N], n: usize, x: u64) -> (carry:
    u64)
    requires
        n <= N,
        off + n <= 2 * N + 1,
        2 * N < usize::MAX,
    ensures
        forall|k: int|
            0 <= k < 2 * N + 1 && !(off <= k < off + n) ==> final(acc)@[k] == old(acc)@[k],
        limbs_value(final(acc)@.subrange(off as int, off + n)) + carry * weight(n as nat)
            == limbs_value(old(acc)@.subrange(off as int, off + n)) + x * limbs_value(
            b@.take(n as int),
        ),
{
    let mut carry: u64 = 0;
    let mut k: usize = 0;
    proof {
        acc.lemma_len();
        lemma_radix();
        lemma_value_take_all(b@);
        assert(acc@.subrange(off as int, off as int) =~= Seq::<u64>::empty());
        assert(x * 0 == 0);
    }
    while k < n
        invariant
            k <= n <= N,
            off + n <= 2 * N + 1,
            acc@.len() == 2 * N + 1,
            old(acc)@.len() == 2 * N + 1,
            2 * N < usize::MAX,
            forall|i: int|
                0 <= i < 2 * N + 1 && !(off <= i < off + k) ==> acc@[i] == old(acc)@[i],
            limbs_value(acc@.subrange(off as int, off + k)) + carry * weight(k as nat)
                == limbs_value(old(acc)@.subrange(off as int, off + k)) + x * limbs_value(
                b@.take(k as int),
            ),
        decreases n - k,
    {
        let ghost before = acc@;
        let ghost carry_before = carry;
        let (lo, hi) = mac(x, b[k], acc.get(off + k), carry);
        acc.set(off + k, lo);
        carry = hi;
        proof {
            assert(acc@.subrange(off as int, off + k) =~= before.subrange(off as int, off + k));
            lemma_value_subrange_succ(acc@, off as int, k as int);
            lemma_value_subrange_succ(old(acc)@, off as int, k as int);
            lemma_value_take_succ(b@, k as int);
            lemma_weight_succ(k as nat);
            let w = weight(k as nat) as int;
            let bk = b@[k as int] as int;
            let ak = before[off + k] as int;
            let c0 = carry_before as int;
            let l = lo as int;
            let h = hi as int;
            let xi = x as int;
            let bt = limbs_value(b@.take(k as int)) as int;
            assert(l + h * 0x1_0000_0000_0000_0000 == xi * bk + ak + c0);
            assert(l * w + h * (w * 0x1_0000_0000_0000_0000) + xi * bt == c0 * w + ak * w + xi * (bt
                + bk * w)) by (nonlinear_arith)
                requires
                    l + h * 0x1_0000_0000_0000_0000 == xi * bk + ak + c0,
            ;
        }
        k += 1;
    }
    carry
}

/// Multiplies two numbers of `N` limbs: the full product, `2 N` limbs.
pub fn mul_limbs<const N: usize>(a: &[u64; N], b: &[u64; N]) -> (r: Wide<N>)
    requires
        2 * N < usize::MAX,
    ensures
        limbs_value(r@) == limbs_value(a@) * limbs_value(b@),
        r@[2 * N] == 0,
{
    let mut acc = Wide::<N>::zero();
    let mut i: usize = 0;
    proof {
        acc.lemma_len();
        lemma_value_take_all(a@);
        lemma_value_take_all(b@);
        assert(0 * limbs_value(b@) == 0);
    }
    while i < N
        invariant
            i <= N,
            2 * N < usize::MAX,
            acc@.len() == 2 * N + 1,
            limbs_value(acc@) == limbs_value(a@.take(i as int)) * limbs_value(b@),
            forall|k: int| i + N <= k < 2 * N + 1 ==> acc@[k] == 0,
        decreases N - i,
    {
        let ghost before = acc@;
        let carry = add_mul_at(&mut acc, i, b, N, a[i]);
        let ghost middle = acc@;
        proof {
            acc.lemma_len();
        }
        acc.set(i + N, carry);
        proof {
            lemma_value_window(before, middle, i as int, N as int);
            lemma_value_take_all(b@);
            lemma_value_update(middle, i + N, carry);
            lemma_value_take_succ(a@, i as int);
            lemma_weight_adds(i as nat, N as nat);
            let wi = weight(i as nat) as int;
            let wn = weight(N as nat) as int;
            let c = carry as int;
            let a_i = a@[i as int] as int;
            let bv = limbs_value(b@) as int;
            let at = limbs_value(a@.take(i as int)) as int;
            let win0 = limbs_value(before.subrange(i as int, i + N)) as int;
            let win1 = limbs_value(middle.subrange(i as int, i + N)) as int;
            assert(middle[i + N] == 0);
            assert(0nat * weight((i + N) as nat) == 0);
            assert(at * bv + wi * (win1 - win0) + c * (wi * wn) == (at + a_i * wi) * bv)
                by (nonlinear_arith)
                requires
                    win1 + c * wn == win0 + a_i * bv,
            ;
        }
        i += 1;
    }
    acc
}

} // verus!

verus! {

/// Multiplies a number of `N` limbs by one limb and adds a limb. Returns the
/// low `N` limbs of the result and the limb above them.
pub fn mul_small<const N: usize>(a: &[u64; N], x: u64, carry_in: u64) -> (r: ([u64; N], u64))
    ensures
        limbs_value(r.0@) + r.1 * weight(N as nat) == limbs_value(a@) * x + carry_in,
{
    let mut out = [0u64; N];
    let mut carry = carry_in;
    let mut i: usize = 0;
    proof {
        lemma_radix();
        lemma_value_take_all(a@);
        lemma_value_take_all(out@);
        assert(0 * x == 0);
    }
    while i < N
        invariant
            i <= N,
            limbs_value(out@.take(i as int)) + carry * weight(i as nat) == limbs_value(
                a@.take(i as int),
            ) * x + carry_in,
        decreases N - i,
    {
        let ghost before = out@;
        let ghost carry_before = carry;
        let (lo, hi) = mac(a[i], x, carry, 0);
        out[i] = lo;
        carry = hi;
        proof {
            assert(out@.take(i as int) =~= before.take(i as int));
            lemma_value_take_succ(out@, i as int);
            lemma_value_take_succ(a@, i as int);
            lemma_weight_succ(i as nat);
            let w = weight(i as nat) as int;
            let a_i = a@[i as int] as int;
            let at = limbs_value(a@.take(i as int)) as int;
            let c0 = carry_before as int;
            let l = lo as int;
            let h = hi as int;
            let xi = x as int;
            let p = a_i * xi;
            assert(l * w + h * (w * 0x1_0000_0000_0000_0000) == p * w + c0 * w)
                by (nonlinear_arith)
                requires
                    l + h * 0x1_0000_0000_0000_0000 == p + c0,
            ;
            assert((at + a_i * w) * xi == at * xi + (a_i * xi) * w) by (nonlinear_arith);
        }
        i += 1;
    }
    proof {
        lemma_value_take_all(a@);
        lemma_value_take_all(out@);
    }
    (out, carry)
}

} // verus!
