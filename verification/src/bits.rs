//! Single bits and the bit length.

use crate::algorithms::compare::significant_limbs;
use crate::algorithms::div::lemma_normalize;
use crate::lemma_weight_multiple;
use crate::limbs::{
    lemma_radix, lemma_value_bound, lemma_value_first, lemma_value_split, lemma_value_top,
    lemma_weight_pos, limbs_value, weight,
};
use crate::Uint;
use vstd::arithmetic::div_mod::{
    lemma_basic_div, lemma_div_denominator, lemma_fundamental_div_mod_converse,
};
use vstd::arithmetic::power2::{
    lemma2_to64, lemma2_to64_rest, lemma_pow2_adds, lemma_pow2_pos, lemma_pow2_strictly_increases,
    pow2,
};
use vstd::bits::lemma_u64_shr_is_div;
use vstd::prelude::*;

verus! {

/// Bit `i` of the number `x`, counted from the least significant.
pub open spec fn bit_at(x: nat, i: nat) -> bool {
    (x / pow2(i)) % 2 == 1
}

/// The number of bits up to the highest set bit of `x`; zero for zero.
pub open spec fn bit_length(x: nat) -> nat
    decreases x,
{
    if x == 0 {
        0
    } else {
        1 + bit_length(x / 2)
    }
}

/// A number's bit length is the one exponent `n` with
/// `2^(n - 1) <= x < 2^n`.
pub proof fn lemma_bit_length(x: nat, n: nat)
    requires
        x > 0,
        n > 0,
        pow2((n - 1) as nat) <= x < pow2(n),
    ensures
        bit_length(x) == n,
    decreases n,
{
    lemma2_to64();
    if n == 1 {
        assert(x == 1);
        assert(bit_length(1) == 1 + bit_length(0));
    } else {
        vstd::arithmetic::power2::lemma_pow2_unfold(n);
        vstd::arithmetic::power2::lemma_pow2_unfold((n - 1) as nat);
        lemma_bit_length(x / 2, (n - 1) as nat);
    }
}

/// A number is below two to its bit length, and where it is not zero, no
/// less than half of that.
pub proof fn lemma_bit_length_bounds(x: nat)
    ensures
        x < pow2(bit_length(x)),
        x > 0 ==> pow2((bit_length(x) - 1) as nat) <= x,
    decreases x,
{
    lemma2_to64();
    if x > 0 {
        lemma_bit_length_bounds(x / 2);
        vstd::arithmetic::power2::lemma_pow2_unfold(bit_length(x));
        if x / 2 > 0 {
            vstd::arithmetic::power2::lemma_pow2_unfold((bit_length(x) - 1) as nat);
        }
    }
}

/// The `n` bits of a number from bit `64 j + k` on are the `n` bits of its
/// limb `j` from bit `k` on, where they lie inside the limb.
pub proof fn lemma_limb_field(s: Seq<u64>, j: int, k: nat, n: nat)
    requires
        0 <= j < s.len(),
        k + n <= 64,
    ensures
        (limbs_value(s) / pow2((64 * j + k) as nat)) % pow2(n) == (s[j] as nat / pow2(k)) % pow2(n),
{
    lemma_radix();
    lemma_value_split(s, j);
    lemma_value_bound(s.take(j));
    lemma_value_first(s.skip(j));
    lemma_weight_pos(j as nat);
    lemma_pow2_pos(k);
    lemma_pow2_pos(n);
    lemma_pow2_adds((64 * j) as nat, k);
    lemma_pow2_adds(k, (64 - k) as nat);
    lemma_pow2_adds(n, (64 - k - n) as nat);
    lemma2_to64();
    lemma2_to64_rest();
    let x = limbs_value(s) as int;
    let w = weight(j as nat) as int;
    let pk = pow2(k) as int;
    let pn = pow2(n) as int;
    let lo = limbs_value(s.take(j)) as int;
    let hi = limbs_value(s.skip(j)) as int;
    let rest = limbs_value(s.skip(j).skip(1)) as int;
    let limb = s[j] as int;
    // Dropping the limbs below: x / 2^(64 j) is the number from limb j on.
    assert(w * hi == hi * w) by (nonlinear_arith);
    lemma_fundamental_div_mod_converse(x, w, hi, lo);
    lemma_div_denominator(x, w, pk);
    // Dropping the k bits below: what lies above the limb is a multiple of 2^n.
    let above = pow2((64 - k - n) as nat) as int;
    let q = limb / pk;
    let r = limb % pk;
    vstd::arithmetic::div_mod::lemma_fundamental_div_mod(limb, pk);
    assert(limb + 0x1_0000_0000_0000_0000 * rest == (q + pn * (above * rest)) * pk + r)
        by (nonlinear_arith)
        requires
            limb == pk * q + r,
            pk * (pn * above) == 0x1_0000_0000_0000_0000,
    ;
    lemma_fundamental_div_mod_converse(hi, pk, q + pn * (above * rest), r);
    vstd::arithmetic::div_mod::lemma_mod_multiples_vanish(above * rest, q, pn);
}

/// Bit `64 j + k` of a number is bit `k` of its limb `j`.
pub proof fn lemma_limb_bit(s: Seq<u64>, j: int, k: nat)
    requires
        0 <= j < s.len(),
        k < 64,
    ensures
        bit_at(limbs_value(s), (64 * j + k) as nat) == bit_at(s[j] as nat, k),
{
    lemma_limb_field(s, j, k, 1);
    lemma2_to64();
}

impl<const BITS: usize, const LIMBS: usize> Uint<BITS, LIMBS> {
    /// Returns whether a specific bit is set. Bits at `BITS` and above are
    /// never set.
    #[must_use]
    pub fn bit(&self, index: usize) -> (r: bool)
        requires
            self.wf(),
        ensures
            r == bit_at(self@, index as nat),
    {
        if index >= BITS {
            proof {
                self.lemma_wf();
                if index > BITS {
                    lemma_pow2_strictly_increases(BITS as nat, index as nat);
                }
                lemma_basic_div(self@ as int, pow2(index as nat) as int);
            }
            return false;
        }
        let limb = self.as_limbs()[index / 64];
        let k = index % 64;
        proof {
            lemma_limb_bit(self.limb_seq(), (index / 64) as int, k as nat);
            lemma_u64_shr_is_div(limb, k as u64);
            let y = limb >> (k as u64);
            assert(y & 1 == y % 2) by (bit_vector);
        }
        (limb >> k) & 1 == 1
    }

    /// Length of the number in bits ignoring leading zeros.
    #[must_use]
    pub fn bit_len(&self) -> (r: usize)
        requires
            self.wf(),
        ensures
            r == bit_length(self@),
            r <= BITS,
            self@ == 0 ==> r == 0,
            self@ > 0 ==> pow2((r - 1) as nat) <= self@ < pow2(r as nat),
    {
        let limbs = self.as_limbs();
        let n = significant_limbs(limbs);
        if n == 0 {
            return 0;
        }
        let top = limbs[n - 1];
        let zeros = top.leading_zeros();
        proof {
            let s = self.limb_seq();
            lemma_normalize(top);
            lemma2_to64();
            lemma2_to64_rest();
            let lz = zeros as nat;
            let len = (64 - lz) as nat;
            let w = weight((n - 1) as nat) as int;
            let t = top as int;
            let pz = pow2(lz) as int;
            let pl = pow2(len) as int;
            let ph = pow2((len - 1) as nat) as int;
            lemma_pow2_adds(len, lz);
            lemma_pow2_adds((len - 1) as nat, lz);
            lemma_pow2_pos(lz);
            lemma_weight_pos((n - 1) as nat);
            assert(ph <= t) by (nonlinear_arith)
                requires
                    ph * pz <= t * pz,
                    pz > 0,
            ;
            assert(t + 1 <= pl) by (nonlinear_arith)
                requires
                    (t + 1) * pz <= pl * pz,
                    pz > 0,
            ;
            lemma_value_top(s.take(n as int));
            lemma_pow2_adds((64 * (n - 1)) as nat, len);
            lemma_pow2_adds((64 * (n - 1)) as nat, (len - 1) as nat);
            assert(w * ph <= t * w) by (nonlinear_arith)
                requires
                    ph <= t,
                    w >= 0,
            ;
            assert((t + 1) * w <= w * pl) by (nonlinear_arith)
                requires
                    t + 1 <= pl,
                    w >= 0,
            ;
            let total = (64 * (n - 1) + len) as nat;
            lemma_bit_length(self@, total);
            self.lemma_wf();
            if total > BITS {
                lemma_pow2_strictly_increases(BITS as nat, (total - 1) as nat);
            }
        }
        64 * (n - 1) + (64 - zeros as usize)
    }

    /// Returns the number of leading zeros in the binary representation of
    /// `self`.
    #[must_use]
    pub fn leading_zeros(&self) -> (r: usize)
        requires
            self.wf(),
        ensures
            r == BITS - bit_length(self@),
    {
        BITS - self.bit_len()
    }
}

} // verus!

verus! {

/// Shifting left leaves the ring exactly when there is a highest set bit
/// and it lands at bit `bits` or above.
pub proof fn lemma_shl_overflow(x: nat, amount: nat, bits: nat)
    ensures
        x * pow2(amount) >= pow2(bits) <==> x > 0 && bit_length(x) + amount > bits,
{
    lemma_pow2_pos(amount);
    lemma_pow2_pos(bits);
    if x == 0 {
        assert(0 * pow2(amount) == 0);
    } else {
        lemma_bit_length_bounds(x);
        let len = bit_length(x);
        let xi = x as int;
        let pa = pow2(amount) as int;
        lemma_pow2_adds((len - 1) as nat, amount);
        lemma_pow2_adds(len, amount);
        let lo = pow2((len - 1) as nat) as int;
        let hi = pow2(len) as int;
        assert(lo * pa <= xi * pa) by (nonlinear_arith)
            requires
                lo <= xi,
                pa > 0,
        ;
        assert(xi * pa < hi * pa) by (nonlinear_arith)
            requires
                xi < hi,
                pa > 0,
        ;
        if len + amount > bits {
            if len - 1 + amount > bits {
                lemma_pow2_strictly_increases(bits, (len - 1 + amount) as nat);
            }
        } else if len + amount < bits {
            lemma_pow2_strictly_increases((len + amount) as nat, bits);
        }
    }
}

/// What a left shift by `64 count + k` bits leaves in `N` limbs, from what
/// its two steps leave: the move by whole limbs and the scaling by `2^k`.
pub proof fn lemma_shl_steps(
    x: int,
    moved: int,
    high: int,
    scaled: int,
    carry: int,
    wc: int,
    wn: int,
    f: int,
)
    requires
        moved + wn * high == x * wc,
        scaled + carry * wn == moved * f,
        f >= 1,
        wn >= 1,
        high >= 0,
        carry >= 0,
        scaled >= 0,
    ensures
        x * (wc * f) == scaled + wn * (carry + high * f),
        carry + high * f >= 0,
        carry + high * f >= 1 <==> carry != 0 || high != 0,
        carry + high * f >= 1 ==> x * (wc * f) >= wn,
{
    assert(x * (wc * f) == (x * wc) * f) by (nonlinear_arith);
    assert((moved + wn * high) * f == moved * f + wn * (high * f)) by (nonlinear_arith);
    assert(wn * (carry + high * f) == carry * wn + wn * (high * f)) by (nonlinear_arith);
    assert(high * f >= 0) by (nonlinear_arith)
        requires
            high >= 0,
            f >= 1,
    ;
    assert(high >= 1 ==> high * f >= 1) by (nonlinear_arith)
        requires
            f >= 1,
    ;
    assert(high == 0 ==> high * f == 0) by (nonlinear_arith);
    let k = carry + high * f;
    assert(k >= 1 ==> wn * k >= wn) by (nonlinear_arith)
        requires
            wn >= 1,
    ;
}

impl<const BITS: usize, const LIMBS: usize> Uint<BITS, LIMBS> {
    /// Left shift by `rhs` bits with overflow detection.
    ///
    /// Returns the shifted value modulo `2^BITS`, and whether a set bit was
    /// shifted out: whether there is a highest set bit and it landed at bit
    /// `BITS` or above. The amount of the shift does not by itself decide
    /// this: a shift of zero by any amount loses nothing, and a shift by
    /// one bit overflows where the highest bit is set.
    #[must_use]
    pub fn overflowing_shl(self, rhs: usize) -> (r: (Self, bool))
        requires
            self.wf(),
        ensures
            r.0.wf(),
            r.0@ == (self@ * pow2(rhs as nat)) % pow2(BITS as nat),
            r.1 == (self@ * pow2(rhs as nat) >= pow2(BITS as nat)),
            r.1 == (self@ > 0 && bit_length(self@) + rhs > BITS),
    {
        let count = rhs / 64;
        let bits = rhs % 64;
        proof {
            lemma_shl_overflow(self@, rhs as nat, BITS as nat);
            lemma_weight_multiple(BITS);
            lemma_pow2_pos(rhs as nat);
        }
        if count >= LIMBS {
            proof {
                self.lemma_wf();
                let x = self@ as int;
                let m = pow2(BITS as nat) as int;
                let e = pow2((rhs - BITS) as nat) as int;
                lemma_pow2_adds(BITS as nat, (rhs - BITS) as nat);
                lemma_pow2_pos((rhs - BITS) as nat);
                assert(x * (m * e) == m * (x * e)) by (nonlinear_arith);
                vstd::arithmetic::div_mod::lemma_mod_multiples_vanish(x * e, 0, m);
                assert(x >= 1 ==> m * (x * e) >= m) by (nonlinear_arith)
                    requires
                        e >= 1,
                        m >= 1,
                ;
                assert(x == 0 ==> x * (m * e) == 0) by (nonlinear_arith);
            }
            return (Self::zero(), !self.is_zero());
        }
        proof {
            lemma_pow2_pos(bits as nat);
            lemma2_to64();
            lemma2_to64_rest();
            lemma_pow2_strictly_increases(bits as nat, 64);
            vstd::bits::lemma_u64_shl_is_mul(1, bits as u64);
        }
        let (moved, lost) = crate::algorithms::shift::shl_limbs(self.as_limbs(), count);
        let (scaled, carry) = crate::algorithms::mul::mul_small(&moved, 1u64 << bits, 0);
        let (value, cut) = Self::overflowing_from_limbs(scaled);
        proof {
            let x = self@ as int;
            let m = pow2(BITS as nat) as int;
            let k2 = pow2((64 * LIMBS - BITS) as nat) as int;
            let wn = weight(LIMBS as nat) as int;
            let wc = weight(count as nat) as int;
            let f = pow2(bits as nat) as int;
            let high = limbs_value(self.limb_seq().skip(LIMBS - count)) as int;
            let sc = limbs_value(scaled@) as int;
            lemma_pow2_adds((64 * count) as nat, bits as nat);
            lemma_weight_pos(LIMBS as nat);
            lemma_shl_steps(x, limbs_value(moved@) as int, high, sc, carry as int, wc, wn, f);
            let k = carry as int + high * f;
            assert(wn * k == (k * k2) * m) by (nonlinear_arith)
                requires
                    wn == m * k2,
            ;
            crate::add::lemma_mod_shift(sc, k * k2, m);
        }
        (value, lost || carry != 0 || cut)
    }

    /// Left shift by `rhs` bits, or `None` if a set bit is shifted out.
    #[must_use]
    pub fn checked_shl(self, rhs: usize) -> (r: Option<Self>)
        requires
            self.wf(),
        ensures
            r is None <==> self@ > 0 && bit_length(self@) + rhs > BITS,
            r is Some <==> self@ * pow2(rhs as nat) < pow2(BITS as nat),
            r matches Some(v) ==> v.wf() && v@ == self@ * pow2(rhs as nat),
    {
        let (value, overflow) = self.overflowing_shl(rhs);
        if overflow {
            None
        } else {
            proof {
                vstd::arithmetic::div_mod::lemma_small_mod(
                    self@ * pow2(rhs as nat),
                    pow2(BITS as nat),
                );
            }
            Some(value)
        }
    }

    /// Left shift by `rhs` bits, modulo `2^BITS`: the bits that are shifted
    /// out are lost.
    #[must_use]
    pub fn wrapping_shl(self, rhs: usize) -> (r: Self)
        requires
            self.wf(),
        ensures
            r.wf(),
            r@ == (self@ * pow2(rhs as nat)) % pow2(BITS as nat),
    {
        self.overflowing_shl(rhs).0
    }

    /// Right shift by `rhs` bits with overflow detection.
    ///
    /// Returns the value divided by `2^rhs`, rounded down, and whether a set
    /// bit was shifted out.
    #[must_use]
    pub fn overflowing_shr(self, rhs: usize) -> (r: (Self, bool))
        requires
            self.wf(),
        ensures
            r.0.wf(),
            r.0@ == self@ / pow2(rhs as nat),
            r.1 == (self@ % pow2(rhs as nat) != 0),
    {
        let count = rhs / 64;
        let bits = rhs % 64;
        proof {
            self.lemma_wf();
            lemma_weight_multiple(BITS);
            lemma_pow2_pos(rhs as nat);
        }
        if count >= LIMBS {
            proof {
                if rhs > BITS {
                    lemma_pow2_strictly_increases(BITS as nat, rhs as nat);
                }
                lemma_basic_div(self@ as int, pow2(rhs as nat) as int);
                vstd::arithmetic::div_mod::lemma_small_mod(self@, pow2(rhs as nat));
            }
            return (Self::zero(), !self.is_zero());
        }
        proof {
            lemma_pow2_pos(bits as nat);
            lemma2_to64();
            lemma2_to64_rest();
            lemma_pow2_strictly_increases(bits as nat, 64);
            vstd::bits::lemma_u64_shl_is_mul(1, bits as u64);
        }
        let (moved, lost) = crate::algorithms::shift::shr_limbs(self.as_limbs(), count);
        let (quotient, rest) = crate::algorithms::div::div_small(&moved, 1u64 << bits, 0);
        proof {
            let x = self@ as int;
            let wc = weight(count as nat) as int;
            let f = pow2(bits as nat) as int;
            let low = limbs_value(self.limb_seq().take(count as int)) as int;
            let mv = limbs_value(moved@) as int;
            let q = limbs_value(quotient@) as int;
            let r = rest as int;
            lemma_pow2_adds((64 * count) as nat, bits as nat);
            lemma_value_bound(self.limb_seq().take(count as int));
            lemma_weight_pos(count as nat);
            assert(0 * weight(LIMBS as nat) == 0);
            assert(low + wc * mv == q * (wc * f) + (wc * r + low)) by (nonlinear_arith)
                requires
                    q * f + r == mv,
            ;
            assert(0 <= wc * r + low < wc * f) by (nonlinear_arith)
                requires
                    0 <= r < f,
                    0 <= low < wc,
            ;
            assert(r >= 1 ==> wc * r >= 1) by (nonlinear_arith)
                requires
                    wc >= 1,
            ;
            assert(r == 0 ==> wc * r == 0) by (nonlinear_arith);
            lemma_fundamental_div_mod_converse(x, wc * f, q, wc * r + low);
            assert(q <= x) by (nonlinear_arith)
                requires
                    x == q * (wc * f) + (wc * r + low),
                    wc * f >= 1,
                    wc * r + low >= 0,
                    q >= 0,
            ;
            crate::lemma_canonical_bound(BITS, quotient@);
        }
        (Self::from_limbs(quotient), lost || rest != 0)
    }

    /// Right shift by `rhs` bits, or `None` if a set bit is shifted out.
    #[must_use]
    pub fn checked_shr(self, rhs: usize) -> (r: Option<Self>)
        requires
            self.wf(),
        ensures
            r is None <==> self@ % pow2(rhs as nat) != 0,
            r matches Some(v) ==> v.wf() && v@ == self@ / pow2(rhs as nat),
    {
        let (value, overflow) = self.overflowing_shr(rhs);
        if overflow {
            None
        } else {
            Some(value)
        }
    }

    /// Right shift by `rhs` bits: the value divided by `2^rhs`, rounded
    /// down.
    #[must_use]
    pub fn wrapping_shr(self, rhs: usize) -> (r: Self)
        requires
            self.wf(),
        ensures
            r.wf(),
            r@ == self@ / pow2(rhs as nat),
    {
        self.overflowing_shr(rhs).0
    }
}

} // verus!

verus! {

/// Bit `k` of a limb, as the machine reads it.
pub proof fn lemma_limb_bit_test(limb: u64, k: u64)
    requires
        k < 64,
    ensures
        bit_at(limb as nat, k as nat) == ((limb >> k) & 1 == 1),
{
    lemma_u64_shr_is_div(limb, k);
    let y = limb >> k;
    assert(y & 1 == y % 2) by (bit_vector);
}

/// A number below `2^i` has no bit set from bit `i` on.
pub proof fn lemma_high_bits_clear(x: nat, i: nat)
    requires
        x < pow2(i),
    ensures
        !bit_at(x, i),
{
    lemma_basic_div(x as int, pow2(i) as int);
}

/// Two limb sequences of one length that differ in one limb only, and
/// there in bit `k` only, stand for numbers that differ in bit `64 j + k`
/// only.
pub proof fn lemma_one_bit_differs(s: Seq<u64>, t: Seq<u64>, j: int, k: nat, i: nat)
    requires
        s.len() == t.len(),
        0 <= j < s.len(),
        k < 64,
        forall|l: int| 0 <= l < s.len() && l != j ==> s[l] == t[l],
        forall|b: nat| b < 64 && b != k ==> bit_at(s[j] as nat, b) == bit_at(t[j] as nat, b),
        i != 64 * j + k,
    ensures
        bit_at(limbs_value(s), i) == bit_at(limbs_value(t), i),
{
    if i / 64 < s.len() {
        lemma_limb_bit(s, (i / 64) as int, i % 64);
        lemma_limb_bit(t, (i / 64) as int, i % 64);
    } else {
        lemma_value_bound(s);
        lemma_value_bound(t);
        if i > 64 * s.len() {
            lemma_pow2_strictly_increases(64 * s.len(), i);
        }
        lemma_high_bits_clear(limbs_value(s), i);
        lemma_high_bits_clear(limbs_value(t), i);
    }
}

impl<const BITS: usize, const LIMBS: usize> Uint<BITS, LIMBS> {
    /// Sets a specific bit to a value; every other bit stays as it is.
    ///
    /// The index must be below `BITS`.
    pub fn set_bit(&mut self, index: usize, value: bool)
        requires
            old(self).wf(),
            index < BITS,
        ensures
            final(self).wf(),
            bit_at(final(self)@, index as nat) == value,
            forall|i: nat| i != index ==> bit_at(final(self)@, i) == bit_at(old(self)@, i),
    {
        let j = index / 64;
        let k = (index % 64) as u64;
        let mut limbs = self.into_limbs();
        let ghost before = limbs@;
        let limb = limbs[j];
        let changed = if value {
            limb | (1u64 << k)
        } else {
            limb & !(1u64 << k)
        };
        limbs[j] = changed;
        proof {
            lemma2_to64();
            lemma2_to64_rest();
            // The one bit changes, in the one limb.
            assert(((changed >> k) & 1 == 1) == value) by (bit_vector)
                requires
                    k < 64,
                    changed == if value {
                        limb | (1u64 << k)
                    } else {
                        limb & !(1u64 << k)
                    },
            ;
            lemma_limb_bit_test(changed, k);
            lemma_limb_bit(limbs@, j as int, k as nat);
            assert forall|b: nat| b < 64 && b != k implies bit_at(before[j as int] as nat, b)
                == bit_at(limbs@[j as int] as nat, b) by {
                let c = b as u64;
                assert(((changed >> c) & 1) == ((limb >> c) & 1)) by (bit_vector)
                    requires
                        k < 64,
                        c < 64,
                        c != k,
                        changed == if value {
                            limb | (1u64 << k)
                        } else {
                            limb & !(1u64 << k)
                        },
                ;
                lemma_limb_bit_test(changed, c);
                lemma_limb_bit_test(limb, c);
            }
            assert forall|i: nat| i != index implies bit_at(limbs_value(limbs@), i) == bit_at(
                limbs_value(before),
                i,
            ) by {
                lemma_one_bit_differs(limbs@, before, j as int, k as nat, i);
            }
            // The highest limb keeps to its mask.
            if j == LIMBS - 1 {
                crate::lemma_top_bits(BITS);
                let tb = crate::top_bits(BITS) as u64;
                let m = crate::mask(BITS);
                if tb < 64 {
                    vstd::bits::lemma_u64_shl_is_mul(1, tb);
                    vstd::bits::lemma_u64_pow2_no_overflow(tb as nat);
                    assert(changed <= m) by (bit_vector)
                        requires
                            k < tb,
                            tb < 64,
                            limb <= m,
                            m == (1u64 << tb) - 1,
                            changed == if value {
                                limb | (1u64 << k)
                            } else {
                                limb & !(1u64 << k)
                            },
                    ;
                }
            }
        }
        *self = Self::from_limbs(limbs);
    }
}

} // verus!
