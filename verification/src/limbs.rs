//! The number that a sequence of 64-bit limbs stands for, and the facts about
//! it that the arithmetic kernels are proved from.

use vstd::arithmetic::power2::{lemma2_to64, lemma2_to64_rest, lemma_pow2_adds, lemma_pow2_pos, pow2};
use vstd::prelude::*;

verus! {

/// The radix of the representation, `2^64`.
pub open spec fn radix() -> nat {
    0x1_0000_0000_0000_0000
}

/// The weight of limb `i`: `2^(64 i)`.
pub open spec fn weight(i: nat) -> nat {
    pow2(64 * i)
}

/// The number that the limbs `s` stand for, least significant limb first:
/// the sum of `s[i] * 2^(64 i)`.
pub open spec fn limbs_value(s: Seq<u64>) -> nat
    decreases s.len(),
{
    if s.len() == 0 {
        0
    } else {
        limbs_value(s.drop_last()) + s.last() as nat * weight((s.len() - 1) as nat)
    }
}

/// `n` limbs that are all zero.
pub open spec fn zeros(n: nat) -> Seq<u64> {
    Seq::new(n, |i: int| 0u64)
}

/// The radix is `2^64`, the weight of limb one; limb zero has weight one.
pub proof fn lemma_radix()
    ensures
        radix() == pow2(64),
        weight(0) == 1,
        weight(1) == radix(),
{
    lemma2_to64();
    lemma2_to64_rest();
}

/// Every weight is positive.
pub proof fn lemma_weight_pos(i: nat)
    ensures
        weight(i) > 0,
{
    lemma_pow2_pos(64 * i);
}

/// The next limb weighs `2^64` times as much.
pub proof fn lemma_weight_succ(i: nat)
    ensures
        weight(i + 1) == weight(i) * radix(),
        weight(i + 1) == radix() * weight(i),
{
    lemma_radix();
    lemma_pow2_adds(64 * i, 64);
    assert(64 * (i + 1) == 64 * i + 64);
    assert(weight(i) * radix() == radix() * weight(i)) by (nonlinear_arith);
}

/// The weight of limb `i + j` is the product of the weights of limbs `i`
/// and `j`.
pub proof fn lemma_weight_adds(i: nat, j: nat)
    ensures
        weight(i + j) == weight(i) * weight(j),
{
    lemma_pow2_adds(64 * i, 64 * j);
    assert(64 * (i + j) == 64 * i + 64 * j);
}

/// A higher limb never weighs less.
pub proof fn lemma_weight_monotonic(i: nat, j: nat)
    requires
        i <= j,
    ensures
        weight(i) <= weight(j),
{
    let d = (j - i) as nat;
    lemma_weight_adds(i, d);
    lemma_weight_pos(d);
    lemma_weight_pos(i);
    assert(weight(i) <= weight(i) * weight(d)) by (nonlinear_arith)
        requires
            weight(d) > 0,
    ;
}

/// A limb appended at the top adds itself at the weight of its place.
pub proof fn lemma_value_push(s: Seq<u64>, x: u64)
    ensures
        limbs_value(s.push(x)) == limbs_value(s) + x as nat * weight(s.len()),
{
    assert(s.push(x).drop_last() =~= s);
}

/// A one-limb sequence stands for its limb.
pub proof fn lemma_value_single(s: Seq<u64>)
    requires
        s.len() == 1,
    ensures
        limbs_value(s) == s[0],
{
    lemma_radix();
    assert(s.drop_last() =~= Seq::<u64>::empty());
    assert(limbs_value(s.drop_last()) == 0);
    assert(s[0] as nat * 1 == s[0] as nat);
}

/// The first `i + 1` limbs stand for what the first `i` stand for, and
/// limb `i` at its weight.
pub proof fn lemma_value_take_succ(s: Seq<u64>, i: int)
    requires
        0 <= i < s.len(),
    ensures
        limbs_value(s.take(i + 1)) == limbs_value(s.take(i)) + s[i] as nat * weight(i as nat),
{
    assert(s.take(i + 1) =~= s.take(i).push(s[i]));
    lemma_value_push(s.take(i), s[i]);
}

/// All the limbs are the whole sequence, and no limbs stand for zero.
pub proof fn lemma_value_take_all(s: Seq<u64>)
    ensures
        s.take(s.len() as int) == s,
        limbs_value(s.take(0)) == 0,
{
    assert(s.take(s.len() as int) =~= s);
    assert(s.take(0) =~= Seq::<u64>::empty());
}

/// `n` limbs stand for a number below `2^(64 n)`.
pub proof fn lemma_value_bound(s: Seq<u64>)
    ensures
        limbs_value(s) < weight(s.len()),
    decreases s.len(),
{
    if s.len() == 0 {
        lemma_radix();
    } else {
        let n = (s.len() - 1) as nat;
        lemma_value_bound(s.drop_last());
        lemma_weight_succ(n);
        let lo = limbs_value(s.drop_last());
        let x = s.last() as nat;
        let w = weight(n);
        assert(lo + x * w < w * radix()) by (nonlinear_arith)
            requires
                lo < w,
                x < radix(),
        ;
    }
}

/// Splitting at `k`: the low part plus the high part times `2^(64 k)`.
pub proof fn lemma_value_split(s: Seq<u64>, k: int)
    requires
        0 <= k <= s.len(),
    ensures
        limbs_value(s) == limbs_value(s.take(k)) + weight(k as nat) * limbs_value(s.skip(k)),
    decreases s.len(),
{
    if k == s.len() {
        assert(s.take(k) =~= s);
        assert(s.skip(k) =~= Seq::<u64>::empty());
        assert(weight(k as nat) * 0 == 0);
    } else {
        let n = (s.len() - 1) as nat;
        let t = s.drop_last();
        lemma_value_split(t, k);
        assert(t.take(k) =~= s.take(k));
        assert(s.skip(k).drop_last() =~= t.skip(k));
        assert(s.skip(k).last() == s.last());
        let hi = limbs_value(t.skip(k));
        let x = s.last() as nat;
        let d = (n - k) as nat;
        assert(limbs_value(s.skip(k)) == hi + x * weight(d));
        lemma_weight_adds(k as nat, d);
        let wk = weight(k as nat);
        let wd = weight(d);
        assert(wk * (hi + x * wd) == wk * hi + x * (wk * wd)) by (nonlinear_arith);
    }
}

/// The first limb and the rest: `s[0] + 2^64 * value(s[1..])`.
pub proof fn lemma_value_first(s: Seq<u64>)
    requires
        s.len() > 0,
    ensures
        limbs_value(s) == s[0] as nat + radix() * limbs_value(s.skip(1)),
{
    lemma_value_split(s, 1);
    lemma_value_single(s.take(1));
    lemma_radix();
}

/// Replacing limb `i` changes the number by the difference times `2^(64 i)`.
pub proof fn lemma_value_update(s: Seq<u64>, i: int, x: u64)
    requires
        0 <= i < s.len(),
    ensures
        limbs_value(s.update(i, x)) + s[i] as nat * weight(i as nat) == limbs_value(s) + x as nat
            * weight(i as nat),
{
    let u = s.update(i, x);
    lemma_value_split(s, i);
    lemma_value_split(u, i);
    assert(u.take(i) =~= s.take(i));
    lemma_value_first(s.skip(i));
    lemma_value_first(u.skip(i));
    assert(u.skip(i).skip(1) =~= s.skip(i).skip(1));
    let w = weight(i as nat);
    let r = limbs_value(s.skip(i).skip(1));
    let a = s[i] as nat;
    let b = x as nat;
    assert(w * (b + radix() * r) + a * w == w * (a + radix() * r) + b * w) by (nonlinear_arith);
}

/// Limbs that are all zero stand for zero.
pub proof fn lemma_value_zero(s: Seq<u64>)
    requires
        forall|i: int| 0 <= i < s.len() ==> s[i] == 0,
    ensures
        limbs_value(s) == 0,
    decreases s.len(),
{
    if s.len() > 0 {
        lemma_value_zero(s.drop_last());
        assert(0nat * weight((s.len() - 1) as nat) == 0);
    }
}

/// Limbs that stand for zero are all zero.
pub proof fn lemma_zero_value(s: Seq<u64>)
    requires
        limbs_value(s) == 0,
    ensures
        forall|i: int| 0 <= i < s.len() ==> s[i] == 0,
    decreases s.len(),
{
    if s.len() > 0 {
        let n = (s.len() - 1) as nat;
        lemma_weight_pos(n);
        let x = s.last() as nat;
        let w = weight(n);
        assert(x == 0) by (nonlinear_arith)
            requires
                x * w == 0,
                w > 0,
        ;
        lemma_zero_value(s.drop_last());
        assert forall|i: int| 0 <= i < s.len() implies s[i] == 0 by {
            if i < n {
                assert(s[i] == s.drop_last()[i]);
            }
        }
    }
}

/// Appending zero limbs does not change the number.
pub proof fn lemma_value_zero_tail(s: Seq<u64>, k: int)
    requires
        0 <= k <= s.len(),
        forall|i: int| k <= i < s.len() ==> s[i] == 0,
    ensures
        limbs_value(s) == limbs_value(s.take(k)),
{
    lemma_value_split(s, k);
    lemma_value_zero(s.skip(k));
    assert(weight(k as nat) * 0 == 0);
}

/// Two limb sequences of one length that stand for the same number are equal.
pub proof fn lemma_value_unique(a: Seq<u64>, b: Seq<u64>)
    requires
        a.len() == b.len(),
        limbs_value(a) == limbs_value(b),
    ensures
        a == b,
    decreases a.len(),
{
    if a.len() == 0 {
        assert(a =~= b);
    } else {
        let n = (a.len() - 1) as nat;
        lemma_value_bound(a.drop_last());
        lemma_value_bound(b.drop_last());
        let w = weight(n);
        let la = limbs_value(a.drop_last());
        let lb = limbs_value(b.drop_last());
        let xa = a.last() as nat;
        let xb = b.last() as nat;
        assert(xa == xb && la == lb) by (nonlinear_arith)
            requires
                la + xa * w == lb + xb * w,
                la < w,
                lb < w,
        ;
        lemma_value_unique(a.drop_last(), b.drop_last());
        assert(a =~= a.drop_last().push(a.last()));
        assert(b =~= b.drop_last().push(b.last()));
    }
}

/// The number is no less than its top limb times that limb's weight, and
/// less than the top limb plus one times that weight.
pub proof fn lemma_value_top(s: Seq<u64>)
    requires
        s.len() > 0,
    ensures
        s.last() as nat * weight((s.len() - 1) as nat) <= limbs_value(s),
        limbs_value(s) < (s.last() as nat + 1) * weight((s.len() - 1) as nat),
{
    lemma_value_bound(s.drop_last());
    let w = weight((s.len() - 1) as nat);
    let x = s.last() as nat;
    assert((x + 1) * w == x * w + w) by (nonlinear_arith);
}

} // verus!

verus! {

/// Extending a run of limbs by the next one.
pub proof fn lemma_value_subrange_succ(s: Seq<u64>, off: int, k: int)
    requires
        0 <= off,
        0 <= k,
        off + k < s.len(),
    ensures
        limbs_value(s.subrange(off, off + k + 1)) == limbs_value(s.subrange(off, off + k)) + s[off
            + k] as nat * weight(k as nat),
{
    assert(s.subrange(off, off + k + 1) =~= s.subrange(off, off + k).push(s[off + k]));
    lemma_value_push(s.subrange(off, off + k), s[off + k]);
}

/// Two limb sequences that differ only inside a window differ by what the
/// windows differ, times the weight of the window's first limb.
pub proof fn lemma_value_window(s: Seq<u64>, t: Seq<u64>, off: int, n: int)
    requires
        0 <= off,
        0 <= n,
        off + n <= s.len(),
        s.len() == t.len(),
        forall|k: int| 0 <= k < s.len() && !(off <= k < off + n) ==> s[k] == t[k],
    ensures
        limbs_value(t) - limbs_value(s) == weight(off as nat) * (limbs_value(
            t.subrange(off, off + n),
        ) - limbs_value(s.subrange(off, off + n))),
{
    lemma_value_split(s, off);
    lemma_value_split(t, off);
    lemma_value_split(s.skip(off), n);
    lemma_value_split(t.skip(off), n);
    assert(s.take(off) =~= t.take(off));
    assert(s.skip(off).skip(n) =~= t.skip(off).skip(n));
    assert(s.skip(off).take(n) =~= s.subrange(off, off + n));
    assert(t.skip(off).take(n) =~= t.subrange(off, off + n));
    let a = limbs_value(s.take(off)) as int;
    let w = weight(off as nat) as int;
    let wn = weight(n as nat) as int;
    let h = limbs_value(s.skip(off).skip(n)) as int;
    let ws = limbs_value(s.subrange(off, off + n)) as int;
    let wt = limbs_value(t.subrange(off, off + n)) as int;
    assert((a + w * (wt + wn * h)) - (a + w * (ws + wn * h)) == w * (wt - ws))
        by (nonlinear_arith);
}

/// A number below `2^(64 k)` has no limb set from limb `k` on.
pub proof fn lemma_value_small(s: Seq<u64>, k: int)
    requires
        0 <= k <= s.len(),
        limbs_value(s) < weight(k as nat),
    ensures
        forall|i: int| k <= i < s.len() ==> s[i] == 0,
        limbs_value(s) == limbs_value(s.take(k)),
{
    lemma_value_split(s, k);
    let w = weight(k as nat);
    let h = limbs_value(s.skip(k));
    let l = limbs_value(s.take(k));
    assert(h == 0) by (nonlinear_arith)
        requires
            l + w * h < w,
    ;
    lemma_zero_value(s.skip(k));
    assert forall|i: int| k <= i < s.len() implies s[i] == 0 by {
        assert(s[i] == s.skip(k)[i - k]);
    }
    assert(w * 0 == 0);
}

} // verus!
