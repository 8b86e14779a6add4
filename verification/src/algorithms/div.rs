//! Long division: by one limb, and by many.

use crate::algorithms::compare::significant_limbs;
use crate::algorithms::mul::{add_mul_at, mul_small};
use crate::algorithms::wide::Wide;
use crate::algorithms::word::{adc, mac, sbb};
use crate::limbs::{
    lemma_radix, lemma_value_bound, lemma_value_first, lemma_value_single, lemma_value_small,
    lemma_value_split, lemma_value_subrange_succ, lemma_value_take_all, lemma_value_take_succ,
    lemma_value_top, lemma_value_update, lemma_value_window, lemma_value_zero_tail,
    lemma_weight_adds, lemma_weight_monotonic, lemma_weight_pos, lemma_weight_succ, limbs_value,
    radix, weight,
};
use vstd::arithmetic::div_mod::lemma_fundamental_div_mod_converse;
use vstd::arithmetic::power2::{lemma2_to64, lemma2_to64_rest, lemma_pow2_adds, lemma_pow2_pos, pow2};
use vstd::bits::{lemma_u64_shl_is_mul, lemma_u64_shr_is_div};
use vstd::std_specs::bits::{axiom_u64_leading_zeros, u64_leading_zeros};
use vstd::prelude::*;

verus! {

/// Divides the two-limb number `high * 2^64 + low` by `d`, where the
/// quotient fits one limb. Returns quotient and remainder.
pub fn div_word(high: u64, low: u64, d: u64) -> (r: (u64, u64))
    requires
        high < d,
    ensures
        high * 0x1_0000_0000_0000_0000 + low == r.0 * d + r.1,
        r.1 < d,
{
    let t: u128 = (high as u128) * 0x1_0000_0000_0000_0000u128 + low as u128;
    let q: u128 = t / (d as u128);
    let rem: u128 = t % (d as u128);
    proof {
        let ti = t as int;
        let di = d as int;
        vstd::arithmetic::div_mod::lemma_fundamental_div_mod(ti, di);
        assert(ti / di < 0x1_0000_0000_0000_0000) by (nonlinear_arith)
            requires
                ti < di * 0x1_0000_0000_0000_0000,
                di > 0,
                ti >= 0,
        ;
        assert(di * (ti / di) == (ti / di) * di) by (nonlinear_arith);
    }
    (q as u64, rem as u64)
}

/// Divides the number `rem_in * 2^(64 N) + a` by the limb `d`, where
/// `rem_in < d`. Returns the quotient, which fits `N` limbs, and the
/// remainder.
pub fn div_small<const N: usize>(a: &[u64; N], d: u64, rem_in: u64) -> (r: ([u64; N], u64))
    requires
        rem_in < d,
    ensures
        limbs_value(r.0@) * d + r.1 == rem_in * weight(N as nat) + limbs_value(a@),
        r.1 < d,
{
    let mut quotient = [0u64; N];
    let mut rem = rem_in;
    let mut i: usize = N;
    proof {
        lemma_radix();
        assert(a@.skip(N as int) =~= Seq::<u64>::empty());
        assert(quotient@.skip(N as int) =~= Seq::<u64>::empty());
        assert(0 * d == 0);
        assert(rem_in * 1 == rem_in);
    }
    while i > 0
        invariant
            i <= N,
            rem < d,
            limbs_value(quotient@.skip(i as int)) * d + rem == rem_in * weight((N - i) as nat)
                + limbs_value(a@.skip(i as int)),
        decreases i,
    {
        let ghost before = quotient@;
        let ghost rem_before = rem;
        i -= 1;
        let (q, r) = div_word(rem, a[i], d);
        quotient[i] = q;
        rem = r;
        proof {
            lemma_value_first(quotient@.skip(i as int));
            lemma_value_first(a@.skip(i as int));
            assert(quotient@.skip(i as int).skip(1) =~= before.skip(i + 1));
            assert(a@.skip(i as int).skip(1) =~= a@.skip(i + 1));
            lemma_weight_succ((N - i - 1) as nat);
            let w = weight((N - i - 1) as nat) as int;
            let qs = limbs_value(before.skip(i + 1)) as int;
            let az = limbs_value(a@.skip(i + 1)) as int;
            let a_i = a@[i as int] as int;
            let r0 = rem_before as int;
            let ri = rem_in as int;
            let qi = q as int;
            let di = d as int;
            let r1 = r as int;
            assert((qi + 0x1_0000_0000_0000_0000 * qs) * di + r1 == ri * (w
                * 0x1_0000_0000_0000_0000) + (a_i + 0x1_0000_0000_0000_0000 * az))
                by (nonlinear_arith)
                requires
                    r0 * 0x1_0000_0000_0000_0000 + a_i == qi * di + r1,
                    qs * di + r0 == ri * w + az,
            ;
        }
    }
    proof {
        assert(a@.skip(0) =~= a@);
        assert(quotient@.skip(0) =~= quotient@);
    }
    (quotient, rem)
}

} // verus!

verus! {

/// Subtracts `x` times the low `n` limbs of `v` from the `n + 1` limbs of
/// `u` that start at limb `off`. Returns whether the window went below
/// zero, in which case it holds the difference plus `2^(64 (n + 1))`; the
/// limbs outside the window stay as they are.
pub fn sub_mul_at<const N: usize>(u: &mut Wide<N>, off: usize, v: &[u64; N], n: usize, x: u64) -> (borrow:
    bool)
    requires
        n <= N,
        off + n + 1 <= 2 * N + 1,
        2 * N < usize::MAX,
    ensures
        forall|k: int|
            0 <= k < 2 * N + 1 && !(off <= k < off + n + 1) ==> final(u)@[k] == old(u)@[k],
        limbs_value(final(u)@.subrange(off as int, off + n + 1)) - (if borrow {
            weight((n + 1) as nat) as int
        } else {
            0
        }) == limbs_value(old(u)@.subrange(off as int, off + n + 1)) - x * limbs_value(
            v@.take(n as int),
        ),
{
    let mut carry: u64 = 0;
    let mut borrow = false;
    let mut k: usize = 0;
    proof {
        u.lemma_len();
        lemma_radix();
        lemma_value_take_all(v@);
        assert(u@.subrange(off as int, off as int) =~= Seq::<u64>::empty());
        assert(x * 0 == 0);
    }
    while k < n
        invariant
            k <= n <= N,
            off + n + 1 <= 2 * N + 1,
            2 * N < usize::MAX,
            u@.len() == 2 * N + 1,
            old(u)@.len() == 2 * N + 1,
            forall|i: int| 0 <= i < 2 * N + 1 && !(off <= i < off + k) ==> u@[i] == old(u)@[i],
            limbs_value(u@.subrange(off as int, off + k)) - ((if borrow { 1int } else { 0 })
                + carry) * weight(k as nat) == limbs_value(old(u)@.subrange(off as int, off + k))
                - x * limbs_value(v@.take(k as int)),
        decreases n - k,
    {
        let ghost before = u@;
        let ghost carry_before = carry;
        let ghost borrow_before = borrow;
        let (plo, phi) = mac(x, v[k], carry, 0);
        let (d, b) = sbb(u.get(off + k), plo, borrow);
        u.set(off + k, d);
        carry = phi;
        borrow = b;
        proof {
            assert(u@.subrange(off as int, off + k) =~= before.subrange(off as int, off + k));
            lemma_value_subrange_succ(u@, off as int, k as int);
            lemma_value_subrange_succ(old(u)@, off as int, k as int);
            lemma_value_take_succ(v@, k as int);
            lemma_weight_succ(k as nat);
            let w = weight(k as nat) as int;
            let uk = before[off + k] as int;
            let vk = v@[k as int] as int;
            let vt = limbs_value(v@.take(k as int)) as int;
            let xi = x as int;
            let p = xi * vk;
            let b0: int = if borrow_before { 1 } else { 0 };
            let b1: int = if b { 1 } else { 0 };
            let c0 = carry_before as int;
            let c1 = phi as int;
            let di = d as int;
            let z = di - (b1 + c1) * 0x1_0000_0000_0000_0000 + (b0 + c0) - uk + p;
            assert(z == 0);
            assert(z * w == di * w - (b1 + c1) * (w * 0x1_0000_0000_0000_0000) + (b0 + c0) * w
                - uk * w + p * w) by (nonlinear_arith)
                requires
                    z == di - (b1 + c1) * 0x1_0000_0000_0000_0000 + (b0 + c0) - uk + p,
            ;
            assert(xi * (vt + vk * w) == xi * vt + (xi * vk) * w) by (nonlinear_arith);
        }
        k += 1;
    }
    let ghost before = u@;
    let (d, b) = sbb(u.get(off + n), carry, borrow);
    u.set(off + n, d);
    proof {
        assert(u@.subrange(off as int, off + n) =~= before.subrange(off as int, off + n));
        lemma_value_subrange_succ(u@, off as int, n as int);
        lemma_value_subrange_succ(old(u)@, off as int, n as int);
        lemma_weight_succ(n as nat);
        let w = weight(n as nat) as int;
        let un = before[off + n] as int;
        let b0: int = if borrow { 1 } else { 0 };
        let b1: int = if b { 1 } else { 0 };
        let c0 = carry as int;
        let di = d as int;
        let z = di - b1 * 0x1_0000_0000_0000_0000 + (b0 + c0) - un;
        assert(z == 0);
        assert(z * w == di * w - b1 * (w * 0x1_0000_0000_0000_0000) + (b0 + c0) * w - un * w)
            by (nonlinear_arith)
            requires
                z == di - b1 * 0x1_0000_0000_0000_0000 + (b0 + c0) - un,
        ;
    }
    b
}

/// Adds the low `n` limbs of `v` to the `n + 1` limbs of `u` that start at
/// limb `off`. Returns the carry out of the window; the limbs outside it
/// stay as they are.
pub fn add_at<const N: usize>(u: &mut Wide<N>, off: usize, v: &[u64; N], n: usize) -> (carry: bool)
    requires
        n <= N,
        off + n + 1 <= 2 * N + 1,
        2 * N < usize::MAX,
    ensures
        forall|k: int|
            0 <= k < 2 * N + 1 && !(off <= k < off + n + 1) ==> final(u)@[k] == old(u)@[k],
        limbs_value(final(u)@.subrange(off as int, off + n + 1)) + (if carry {
            weight((n + 1) as nat)
        } else {
            0
        }) == limbs_value(old(u)@.subrange(off as int, off + n + 1)) + limbs_value(
            v@.take(n as int),
        ),
{
    proof {
        u.lemma_len();
        lemma_radix();
    }
    let limb = add_mul_at(u, off, v, n, 1);
    let ghost before = u@;
    proof {
        u.lemma_len();
    }
    let (d, c) = adc(u.get(off + n), limb, false);
    u.set(off + n, d);
    proof {
        assert(u@.subrange(off as int, off + n) =~= before.subrange(off as int, off + n));
        lemma_value_subrange_succ(u@, off as int, n as int);
        lemma_value_subrange_succ(old(u)@, off as int, n as int);
        lemma_weight_succ(n as nat);
        let w = weight(n as nat) as int;
        let un = before[off + n] as int;
        let c1: int = if c { 1 } else { 0 };
        let l = limb as int;
        let di = d as int;
        let z = di + c1 * 0x1_0000_0000_0000_0000 - un - l;
        assert(z == 0);
        assert(z * w == di * w + c1 * (w * 0x1_0000_0000_0000_0000) - un * w - l * w)
            by (nonlinear_arith)
            requires
                z == di + c1 * 0x1_0000_0000_0000_0000 - un - l,
        ;
        assert(1 * limbs_value(v@.take(n as int)) == limbs_value(v@.take(n as int)));
    }
    c
}

} // verus!

verus! {

/// Shifting a limb that is not zero left by the number of its leading zeros
/// sets its highest bit and loses nothing.
pub proof fn lemma_normalize(x: u64)
    requires
        x != 0,
    ensures
        0 <= u64_leading_zeros(x) < 64,
        pow2(u64_leading_zeros(x) as nat) <= 0x8000_0000_0000_0000,
        0x8000_0000_0000_0000 <= x * pow2(u64_leading_zeros(x) as nat),
        (x + 1) * pow2(u64_leading_zeros(x) as nat) <= 0x1_0000_0000_0000_0000,
{
    axiom_u64_leading_zeros(x);
    lemma2_to64();
    lemma2_to64_rest();
    let s = u64_leading_zeros(x) as nat;
    let k = (63 - s) as nat;
    let ps = pow2(s) as int;
    lemma_pow2_pos(s);
    lemma_pow2_pos(k);
    lemma_pow2_adds(k, s);
    lemma_pow2_adds(k, 1);
    lemma_pow2_adds((k + 1) as nat, s);
    let pk = pow2(k) as int;
    let xi = x as int;
    // The highest set bit: x >= 2^k.
    let y = x >> (k as u64);
    lemma_u64_shr_is_div(x, k as u64);
    assert(y & 1 != 0 ==> y != 0) by (bit_vector);
    assert(xi >= pk) by (nonlinear_arith)
        requires
            xi / pk >= 1,
            pk > 0,
            xi >= 0,
    ;
    assert(xi * ps >= pk * ps) by (nonlinear_arith)
        requires
            xi >= pk,
            ps >= 0,
    ;
    assert(ps <= pk * ps) by (nonlinear_arith)
        requires
            pk >= 1,
            ps >= 0,
    ;
    // Nothing above it: x < 2^(k + 1).
    if s > 0 {
        let z = x >> ((k + 1) as u64);
        lemma_u64_shr_is_div(x, (k + 1) as u64);
        assert(xi < 2 * pk) by (nonlinear_arith)
            requires
                xi / (2 * pk) == 0,
                pk > 0,
                xi >= 0,
        ;
    }
    assert((xi + 1) * ps <= (2 * pk) * ps) by (nonlinear_arith)
        requires
            xi + 1 <= 2 * pk,
            ps >= 0,
    ;
}

/// The estimate of a quotient limb, from the two highest limbs of the
/// window and the highest limb of the divisor, is never too small: the
/// window is below the estimate plus one, times the divisor.
pub proof fn lemma_estimate(win: Seq<u64>, v: Seq<u64>, n: int, qhat: int, r: int)
    requires
        n >= 1,
        win.len() == n + 1,
        v.len() == n,
        v[n - 1] > 0,
        limbs_value(win) < limbs_value(v) * radix(),
        qhat >= 0,
        (win[n] >= v[n - 1] && qhat == radix() - 1) || (win[n] * radix() + win[n - 1] == qhat * v[n
            - 1] + r && 0 <= r < v[n - 1]),
    ensures
        limbs_value(win) < (qhat + 1) * limbs_value(v),
{
    let vv = limbs_value(v) as int;
    let b = radix() as int;
    if win[n] >= v[n - 1] && qhat == radix() - 1 {
        assert((qhat + 1) * vv == vv * b) by (nonlinear_arith)
            requires
                qhat + 1 == b,
        ;
    } else {
        let w = weight((n - 1) as nat) as int;
        let vtop = v[n - 1] as int;
        let uh = win[n] * b + win[n - 1];
        lemma_value_split(win, n - 1);
        lemma_value_bound(win.take(n - 1));
        let hi = win.skip(n - 1);
        lemma_value_first(hi);
        lemma_value_single(hi.skip(1));
        assert(limbs_value(hi) == uh);
        let lo = limbs_value(win.take(n - 1)) as int;
        lemma_value_top(v);
        let e = (qhat + 1) * vtop;
        assert(e == qhat * vtop + vtop) by (nonlinear_arith)
            requires
                e == (qhat + 1) * vtop,
        ;
        assert(lo + w * uh < w * e) by (nonlinear_arith)
            requires
                0 <= lo < w,
                uh + 1 <= e,
        ;
        assert(w * e == (qhat + 1) * (vtop * w)) by (nonlinear_arith)
            requires
                e == (qhat + 1) * vtop,
        ;
        assert((qhat + 1) * (vtop * w) <= (qhat + 1) * vv) by (nonlinear_arith)
            requires
                vtop * w <= vv,
                qhat >= 0,
        ;
    }
}

/// Multiplies a number of at most `2 N` limbs by one limb.
pub fn scale<const N: usize>(u: &Wide<N>, x: u64) -> (r: Wide<N>)
    requires
        u@[2 * N as int] == 0,
    ensures
        limbs_value(r@) == limbs_value(u@) * x,
{
    let (low, c1) = mul_small(&u.low(), x, 0);
    let (high, c2) = mul_small(&u.high(), x, c1);
    proof {
        u.lemma_len();
        u.lemma_parts();
        lemma_weight_adds(N as nat, N as nat);
        let w = weight(N as nat) as int;
        let ul = limbs_value(u@.take(N as int)) as int;
        let uh = limbs_value(u@.subrange(N as int, 2 * N)) as int;
        let l = limbs_value(low@) as int;
        let h = limbs_value(high@) as int;
        let xi = x as int;
        let a = c1 as int;
        let b = c2 as int;
        let ph = uh * xi;
        assert(w * h + (w * w) * b == w * ph + w * a) by (nonlinear_arith)
            requires
                h + b * w == ph + a,
        ;
        assert((ul + w * uh) * xi == ul * xi + w * (uh * xi)) by (nonlinear_arith);
        assert(weight(2 * N as nat) * 0 == 0);
    }
    Wide::from_parts(low, high, c2)
}

/// Divides a number of at most `2 N` limbs by one limb. Returns quotient
/// and remainder.
pub fn div_rem_small<const N: usize>(u: &Wide<N>, d: u64) -> (r: (Wide<N>, u64))
    requires
        d != 0,
        u@[2 * N as int] == 0,
    ensures
        limbs_value(u@) == limbs_value(r.0@) * d + r.1,
        r.1 < d,
{
    let (high, r1) = div_small(&u.high(), d, 0);
    let (low, r0) = div_small(&u.low(), d, r1);
    proof {
        u.lemma_len();
        u.lemma_parts();
        let w = weight(N as nat) as int;
        let ul = limbs_value(u@.take(N as int)) as int;
        let uh = limbs_value(u@.subrange(N as int, 2 * N)) as int;
        let ql = limbs_value(low@) as int;
        let qh = limbs_value(high@) as int;
        let di = d as int;
        let a = r1 as int;
        let ph = qh * di;
        assert(0 * w == 0);
        assert(weight(2 * N as nat) * 0 == 0);
        assert(w * uh == w * ph + a * w) by (nonlinear_arith)
            requires
                ph + a == uh,
        ;
        assert((ql + w * qh + weight(2 * N as nat) * 0) * di == ql * di + w * (qh * di))
            by (nonlinear_arith);
    }
    (Wide::from_parts(low, high, 0), r0)
}

} // verus!

verus! {

/// With a divisor whose highest limb has its highest bit set, the estimate
/// of a quotient limb is too large by two at most: the window is no less
/// than the estimate less two, times the divisor.
pub proof fn lemma_estimate_close(win: Seq<u64>, v: Seq<u64>, n: int, qhat: int, r: int)
    requires
        n >= 1,
        win.len() == n + 1,
        v.len() == n,
        v[n - 1] >= 0x8000_0000_0000_0000,
        0 <= qhat <= radix() - 1,
        (win[n] >= v[n - 1] && qhat == radix() - 1) || (win[n] * radix() + win[n - 1] == qhat * v[n
            - 1] + r && 0 <= r < v[n - 1]),
    ensures
        (qhat - 2) * limbs_value(v) <= limbs_value(win),
{
    lemma_radix();
    let vv = limbs_value(v) as int;
    let u = limbs_value(win) as int;
    let w = weight((n - 1) as nat) as int;
    let vtop = v[n - 1] as int;
    let b = radix() as int;
    let uh = win[n] * b + win[n - 1];
    lemma_value_split(win, n - 1);
    let hi = win.skip(n - 1);
    lemma_value_first(hi);
    lemma_value_single(hi.skip(1));
    assert(limbs_value(hi) == uh);
    lemma_value_top(v);
    lemma_weight_pos((n - 1) as nat);
    // The two highest limbs of the window hold the estimate times the
    // divisor's highest limb.
    let e = qhat * vtop;
    assert(e <= uh) by {
        if win[n] >= v[n - 1] && qhat == radix() - 1 {
            assert(qhat * vtop <= b * vtop) by (nonlinear_arith)
                requires
                    qhat <= b,
                    vtop >= 0,
            ;
            assert(b * vtop <= win[n] as int * b) by (nonlinear_arith)
                requires
                    vtop <= win[n] as int,
                    b >= 0,
            ;
        }
    }
    assert(w * e <= w * uh) by (nonlinear_arith)
        requires
            e <= uh,
            w >= 0,
    ;
    if qhat > 2 {
        let k = qhat - 2;
        let f = (vtop + 1) * w;
        assert(k * vv <= k * f) by (nonlinear_arith)
            requires
                vv <= f,
                k >= 0,
        ;
        let g = k * (vtop + 1);
        assert(k * f == w * g) by (nonlinear_arith)
            requires
                f == (vtop + 1) * w,
                g == k * (vtop + 1),
        ;
        assert(g == qhat * vtop + qhat - 2 * vtop - 2) by (nonlinear_arith)
            requires
                g == (qhat - 2) * (vtop + 1),
        ;
        assert(w * g <= w * e) by (nonlinear_arith)
            requires
                g <= e,
                w >= 0,
        ;
    } else {
        assert((qhat - 2) * vv <= 0) by (nonlinear_arith)
            requires
                qhat - 2 <= 0,
                vv >= 0,
        ;
    }
}

/// One step of long division. The `n + 1` limbs of `u` that start at limb
/// `j` hold a number below `2^64` times the divisor, the low `n` limbs of
/// `v`, whose highest limb has its highest bit set. Returns the quotient of
/// the two, and leaves the remainder in the window.
///
/// The quotient is first estimated from the two highest limbs of the window
/// and the highest limb of the divisor. The estimate is never too small,
/// and too large by two at most: where the subtraction goes below zero, the
/// divisor is added back, once or twice.
pub fn div_step<const N: usize>(u: &mut Wide<N>, j: usize, v: &[u64; N], n: usize) -> (q: u64)
    requires
        1 <= n <= N,
        j + n + 1 <= 2 * N + 1,
        2 * N < usize::MAX,
        v@[n - 1] >= 0x8000_0000_0000_0000,
        limbs_value(old(u)@.subrange(j as int, j + n + 1)) < limbs_value(v@.take(n as int))
            * radix(),
    ensures
        forall|k: int|
            0 <= k < 2 * N + 1 && !(j <= k < j + n + 1) ==> final(u)@[k] == old(u)@[k],
        limbs_value(old(u)@.subrange(j as int, j + n + 1)) == q * limbs_value(v@.take(n as int))
            + limbs_value(final(u)@.subrange(j as int, j + n + 1)),
        limbs_value(final(u)@.subrange(j as int, j + n + 1)) < limbs_value(v@.take(n as int)),
{
    proof {
        u.lemma_len();
        lemma_radix();
    }
    let ghost win0 = u@.subrange(j as int, j + n + 1);
    let ghost vs = v@.take(n as int);
    let ghost vv = limbs_value(vs) as int;
    let ghost w0 = limbs_value(win0) as int;
    let ghost full = weight((n + 1) as nat) as int;
    let top = u.get(j + n);
    let next = u.get(j + n - 1);
    let divisor = v[n - 1];
    let estimate: u64 = if top >= divisor {
        proof {
            lemma_estimate(win0, vs, n as int, 0xffff_ffff_ffff_ffff, 0);
            lemma_estimate_close(win0, vs, n as int, 0xffff_ffff_ffff_ffff, 0);
        }
        u64::MAX
    } else {
        let (quotient, rest) = div_word(top, next, divisor);
        proof {
            lemma_estimate(win0, vs, n as int, quotient as int, rest as int);
            lemma_estimate_close(win0, vs, n as int, quotient as int, rest as int);
        }
        quotient
    };
    let ghost q0 = estimate as int;
    proof {
        assert((q0 + 1) * vv == q0 * vv + vv) by (nonlinear_arith);
        assert((q0 - 1) * vv == q0 * vv - vv) by (nonlinear_arith);
        assert((q0 - 2) * vv == q0 * vv - 2 * vv) by (nonlinear_arith);
        assert(q0 == 0 ==> q0 * vv == 0) by (nonlinear_arith);
        assert(q0 == 1 ==> q0 * vv == vv) by (nonlinear_arith);
    }
    let borrow = sub_mul_at(u, j, v, n, estimate);
    proof {
        u.lemma_len();
        lemma_value_bound(u@.subrange(j as int, j + n + 1));
    }
    if !borrow {
        return estimate;
    }
    let carry = add_at(u, j, v, n);
    proof {
        u.lemma_len();
        lemma_value_bound(u@.subrange(j as int, j + n + 1));
    }
    if carry {
        return estimate - 1;
    }
    let carry = add_at(u, j, v, n);
    proof {
        u.lemma_len();
        lemma_value_bound(u@.subrange(j as int, j + n + 1));
    }
    estimate - 2
}

/// Long division of a number of `m` significant limbs by one of `n`, where
/// `n <= m`. Returns quotient and remainder.
///
/// Both operands are first shifted left, by a multiplication with a power
/// of two, until the divisor's highest limb has its highest bit set, which
/// keeps the estimates of the quotient limbs close. The quotient limbs are
/// then found from the highest down, and the remainder is shifted back.
pub fn div_rem_long<const N: usize>(u: &Wide<N>, v: &[u64; N], m: usize, n: usize) -> (r: (
    Wide<N>,
    [u64; N],
))
    requires
        1 <= n <= N,
        n <= m <= 2 * N,
        2 * N < usize::MAX,
        v@[n - 1] != 0,
        forall|k: int| n <= k < N ==> v@[k] == 0,
        forall|k: int| m <= k < 2 * N + 1 ==> u@[k] == 0,
    ensures
        limbs_value(u@) == limbs_value(r.0@) * limbs_value(v@) + limbs_value(r.1@),
        limbs_value(r.1@) < limbs_value(v@),
{
    let shift = v[n - 1].leading_zeros();
    proof {
        lemma_normalize(v@[n - 1]);
        lemma_pow2_pos(shift as nat);
        lemma_u64_shl_is_mul(1, shift as u64);
        lemma_radix();
        u.lemma_len();
    }
    let factor: u64 = 1u64 << shift;
    let (vn, spill) = mul_small(v, factor, 0);
    let mut un = scale(u, factor);
    let mut q = Wide::<N>::zero();
    let ghost f = factor as int;
    let ghost v0 = limbs_value(v@) as int;
    let ghost u0 = limbs_value(u@) as int;
    let ghost vv = limbs_value(vn@) as int;
    proof {
        un.lemma_len();
        q.lemma_len();
        // The divisor keeps its length, and its highest limb gets its highest bit.
        let vtop = v@[n - 1] as int;
        let w = weight((n - 1) as nat) as int;
        lemma_value_zero_tail(v@, n as int);
        lemma_value_top(v@.take(n as int));
        lemma_weight_succ((n - 1) as nat);
        lemma_weight_monotonic(n as nat, N as nat);
        lemma_weight_pos((n - 1) as nat);
        assert(v0 * f < ((vtop + 1) * f) * w) by (nonlinear_arith)
            requires
                v0 < (vtop + 1) * w,
                f > 0,
        ;
        assert(((vtop + 1) * f) * w <= 0x1_0000_0000_0000_0000 * w) by (nonlinear_arith)
            requires
                (vtop + 1) * f <= 0x1_0000_0000_0000_0000,
                w >= 0,
        ;
        let wn = weight(N as nat) as int;
        let sp = spill as int;
        let scaled = v0 * f;
        if sp >= 1 {
            assert(sp * wn >= wn) by (nonlinear_arith)
                requires
                    sp >= 1,
                    wn >= 0,
            ;
        }
        assert(sp == 0);
        assert(sp * wn == 0);
        assert(vv == v0 * f);
        lemma_value_small(vn@, n as int);
        lemma_value_top(vn@.take(n as int));
        assert((vtop * f) * w <= v0 * f) by (nonlinear_arith)
            requires
                vtop * w <= v0,
                f >= 0,
        ;
        assert(0x8000_0000_0000_0000 * w <= (vtop * f) * w) by (nonlinear_arith)
            requires
                0x8000_0000_0000_0000 <= vtop * f,
                w >= 0,
        ;
        let ntop = vn@[n - 1] as int;
        assert(ntop >= 0x8000_0000_0000_0000) by (nonlinear_arith)
            requires
                0x8000_0000_0000_0000 * w <= vv,
                vv < (ntop + 1) * w,
                w > 0,
        ;
        // The dividend, one limb longer, is below the divisor set against its top.
        lemma_value_zero_tail(u@, m as int);
        lemma_value_bound(u@.take(m as int));
        let wm = weight(m as nat) as int;
        let d = weight((m - n + 1) as nat) as int;
        lemma_weight_adds((n - 1) as nat, (m - n + 1) as nat);
        assert(u0 * f < 0x8000_0000_0000_0000 * wm) by (nonlinear_arith)
            requires
                0 <= u0 < wm,
                0 < f <= 0x8000_0000_0000_0000,
        ;
        assert(0x8000_0000_0000_0000 * (w * d) <= vv * d) by (nonlinear_arith)
            requires
                0x8000_0000_0000_0000 * w <= vv,
                d >= 0,
        ;
        assert(limbs_value(q@) * vv == 0) by (nonlinear_arith)
            requires
                limbs_value(q@) == 0,
        ;
    }
    let mut j: usize = m - n + 1;
    while j > 0
        invariant
            1 <= n <= N,
            n <= m <= 2 * N,
            j <= m - n + 1,
            2 * N < usize::MAX,
            un@.len() == 2 * N + 1,
            q@.len() == 2 * N + 1,
            vn@[n - 1] >= 0x8000_0000_0000_0000,
            vv == limbs_value(vn@),
            vv == limbs_value(vn@.take(n as int)),
            vv > 0,
            u0 * f == limbs_value(q@) * vv + limbs_value(un@),
            limbs_value(un@) < vv * weight(j as nat),
            forall|k: int| 0 <= k < j ==> q@[k] == 0,
        decreases j,
    {
        j -= 1;
        let ghost un0 = un@;
        let ghost q0 = q@;
        let ghost wj = weight(j as nat) as int;
        let ghost win0 = limbs_value(un0.subrange(j as int, j + n + 1)) as int;
        let ghost lo = limbs_value(un0.take(j as int)) as int;
        proof {
            lemma_radix();
            lemma_weight_succ(j as nat);
            lemma_weight_adds(n as nat, (j + 1) as nat);
            lemma_weight_pos(j as nat);
            lemma_value_bound(vn@.take(n as int));
            let wn = weight(n as nat) as int;
            let wj1 = weight((j + 1) as nat) as int;
            assert(vv * wj1 <= wn * wj1) by (nonlinear_arith)
                requires
                    vv <= wn,
                    wj1 >= 0,
            ;
            lemma_value_small(un0, j + n + 1);
            let head = un0.take(j + n + 1);
            lemma_value_split(head, j as int);
            assert(head.take(j as int) =~= un0.take(j as int));
            assert(head.skip(j as int) =~= un0.subrange(j as int, j + n + 1));
            lemma_value_bound(un0.take(j as int));
            assert(win0 < vv * 0x1_0000_0000_0000_0000) by (nonlinear_arith)
                requires
                    lo + wj * win0 < vv * (wj * 0x1_0000_0000_0000_0000),
                    lo >= 0,
                    wj > 0,
            ;
        }
        let digit = div_step(&mut un, j, &vn, n);
        proof {
            un.lemma_len();
            q.lemma_len();
        }
        q.set(j, digit);
        proof {
            let win1 = limbs_value(un@.subrange(j as int, j + n + 1)) as int;
            let d = digit as int;
            lemma_value_window(un0, un@, j as int, n + 1);
            lemma_value_update(q0, j as int, digit);
            let qv = limbs_value(q0) as int;
            let p = d * vv;
            assert(wj * (win1 - win0) == -(wj * p)) by (nonlinear_arith)
                requires
                    win0 == p + win1,
            ;
            assert(lo + wj * win0 - wj * p == lo + wj * win1) by (nonlinear_arith)
                requires
                    win0 == p + win1,
            ;
            assert(lo + wj * win1 < vv * wj) by (nonlinear_arith)
                requires
                    0 <= lo < wj,
                    0 <= win1 < vv,
            ;
            assert(0nat * weight(j as nat) == 0);
            assert((qv + d * wj) * vv == qv * vv + wj * (d * vv)) by (nonlinear_arith);
        }
    }
    proof {
        lemma_radix();
        lemma_value_bound(vn@.take(n as int));
        lemma_weight_monotonic(n as nat, N as nat);
        assert(vv * 1 == vv);
        lemma_value_small(un@, N as int);
        assert(0 * weight(N as nat) == 0);
    }
    let (rem, rest) = div_small(&un.low(), factor, 0);
    proof {
        let qv = limbs_value(q@) as int;
        let rv = limbs_value(rem@) as int;
        let x = u0 - qv * v0;
        assert(qv * vv == (qv * v0) * f) by (nonlinear_arith)
            requires
                vv == v0 * f,
        ;
        assert(x * f == u0 * f - (qv * v0) * f) by (nonlinear_arith)
            requires
                x == u0 - qv * v0,
        ;
        lemma_fundamental_div_mod_converse(x * f, f, rv, rest as int);
        lemma_fundamental_div_mod_converse(x * f, f, x, 0);
        assert(rv < v0) by (nonlinear_arith)
            requires
                rv * f < v0 * f,
                f > 0,
        ;
    }
    (q, rem)
}

/// Divides a number of at most `2 N` limbs by one of `N` limbs that is not
/// zero. Returns quotient and remainder.
///
/// A divisor of one limb is divided by directly. A dividend shorter than
/// the divisor is the remainder as it stands.
pub fn div_rem_limbs<const N: usize>(u: &Wide<N>, v: &[u64; N]) -> (r: (Wide<N>, [u64; N]))
    requires
        limbs_value(v@) != 0,
        u@[2 * N as int] == 0,
        2 * N < usize::MAX,
    ensures
        limbs_value(u@) == limbs_value(r.0@) * limbs_value(v@) + limbs_value(r.1@),
        limbs_value(r.1@) < limbs_value(v@),
{
    let n = significant_limbs(v);
    proof {
        u.lemma_len();
        lemma_radix();
    }
    if n == 1 {
        let (q, rest) = div_rem_small(u, v[0]);
        let mut rem = [0u64; N];
        rem[0] = rest;
        proof {
            lemma_value_single(v@.take(1));
            lemma_value_zero_tail(rem@, 1);
            lemma_value_single(rem@.take(1));
        }
        return (q, rem);
    }
    let m = u.significant_limbs();
    if m < n {
        proof {
            lemma_value_zero_tail(u@, m as int);
            lemma_value_bound(u@.take(m as int));
            lemma_value_zero_tail(u@, N as int);
            lemma_value_top(v@.take(n as int));
            lemma_weight_monotonic(m as nat, (n - 1) as nat);
            let w = weight((n - 1) as nat) as int;
            let vtop = v@[n - 1] as int;
            assert(w <= vtop * w) by (nonlinear_arith)
                requires
                    vtop >= 1,
                    w >= 0,
            ;
            assert(0 * limbs_value(v@) == 0);
        }
        return (Wide::zero(), u.low());
    }
    div_rem_long(u, v, m, n)
}

} // verus!
