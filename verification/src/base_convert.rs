//! Conversion between a value and its digits in a given radix.

use crate::algorithms::compare::is_zero_limbs;
use crate::algorithms::div::div_small;
use crate::algorithms::mul::mul_small;
use crate::lemma_canonical_bound;
use crate::lemma_weight_multiple;
use crate::limbs::{lemma_value_unique, lemma_value_zero, limbs_value, weight};
use crate::nlimbs;
use crate::Uint;
use vstd::arithmetic::div_mod::{
    lemma_add_mod_noop, lemma_mod_mod, lemma_mul_mod_noop_left, lemma_small_mod,
};
use vstd::arithmetic::power::{lemma_pow0, pow};
use vstd::arithmetic::power2::{lemma_pow2_pos, pow2};
use vstd::prelude::*;

verus! {

/// The error of a conversion from digits.
#[derive(Clone, Copy, Debug, PartialEq, Eq)]
pub enum BaseConvertError {
    /// The digits stand for a number that is too large for the bit size.
    Overflow,
    /// A digit, the first field, is not below the radix, the second.
    InvalidDigit(u64, u64),
}

/// The number that the digits stand for in the given radix, most
/// significant digit first.
pub open spec fn digits_value(digits: Seq<u64>, radix: nat) -> nat
    decreases digits.len(),
{
    if digits.len() == 0 {
        0
    } else {
        digits_value(digits.drop_last(), radix) * radix + digits.last() as nat
    }
}

/// The number that the digits stand for in the given radix, least
/// significant digit first.
pub open spec fn digits_value_le(digits: Seq<u64>, radix: nat) -> nat
    decreases digits.len(),
{
    if digits.len() == 0 {
        0
    } else {
        (digits_value_le(digits.drop_last(), radix) + digits.last() as nat * pow(
            radix as int,
            (digits.len() - 1) as nat,
        )) as nat
    }
}

/// Every digit is below the radix.
pub open spec fn all_digits(digits: Seq<u64>, radix: nat) -> bool {
    forall|i: int| 0 <= i < digits.len() ==> digits[i] < radix
}

/// The digits of `value` in the given radix, least significant first, as
/// [`Uint::to_digits_le`] returns them: at least one digit, each below the
/// radix, and the last of them zero only for zero.
pub open spec fn is_digits_le(digits: Seq<u64>, radix: nat, value: nat) -> bool {
    &&& digits.len() >= 1
    &&& all_digits(digits, radix)
    &&& digits_value_le(digits, radix) == value
    &&& value == 0 ==> digits.len() == 1
    &&& value > 0 ==> digits.last() != 0
}

/// The digits of `value` in the given radix, most significant first, as
/// [`Uint::to_digits_be`] returns them: at least one digit, each below the
/// radix, and the first of them zero only for zero.
pub open spec fn is_digits_be(digits: Seq<u64>, radix: nat, value: nat) -> bool {
    &&& digits.len() >= 1
    &&& all_digits(digits, radix)
    &&& digits_value(digits, radix) == value
    &&& value == 0 ==> digits.len() == 1
    &&& value > 0 ==> digits[0] != 0
}

/// What [`Uint::from_digits`] returns for the given digits, most
/// significant first. It reads them in order and stops at the first that is
/// not below the radix, or with which the number reaches `2^bits`.
pub open spec fn from_digits_outcome(
    bits: nat,
    radix: u64,
    digits: Seq<u64>,
    outcome: Result<nat, BaseConvertError>,
) -> bool {
    match outcome {
        Ok(value) => {
            &&& all_digits(digits, radix as nat)
            &&& digits_value(digits, radix as nat) < pow2(bits)
            &&& value == digits_value(digits, radix as nat)
        },
        Err(BaseConvertError::InvalidDigit(digit, base)) => {
            &&& base == radix
            &&& digit >= radix
            &&& exists|i: int|
                {
                    &&& 0 <= i < digits.len()
                    &&& digits[i] == digit
                    &&& all_digits(#[trigger] digits.take(i), radix as nat)
                    &&& digits_value(digits.take(i), radix as nat) < pow2(bits)
                }
        },
        Err(BaseConvertError::Overflow) => {
            exists|n: int|
                {
                    &&& 1 <= n <= digits.len()
                    &&& all_digits(#[trigger] digits.take(n), radix as nat)
                    &&& digits_value(digits.take(n), radix as nat) >= pow2(bits)
                }
        },
    }
}

/// A digit appended at the end: in the order that has the most significant
/// digit first it is the lowest, and in the other the highest.
pub proof fn lemma_digits_push(digits: Seq<u64>, digit: u64, radix: nat)
    ensures
        digits_value(digits.push(digit), radix) == digits_value(digits, radix) * radix + digit,
        digits_value_le(digits.push(digit), radix) == digits_value_le(digits, radix) + digit * pow(
            radix as int,
            digits.len(),
        ),
        all_digits(digits, radix) && digit < radix ==> all_digits(digits.push(digit), radix),
{
    assert(digits.push(digit).drop_last() =~= digits);
    if radix > 0 {
        vstd::arithmetic::power::lemma_pow_positive(radix as int, digits.len());
    } else if digits.len() == 0 {
        lemma_pow0(0);
    } else {
        vstd::arithmetic::power::lemma0_pow(digits.len());
    }
    let p = pow(radix as int, digits.len());
    assert(digit * p >= 0) by (nonlinear_arith)
        requires
            p >= 0,
            digit >= 0,
    ;
}

/// Putting a digit in front adds it at the weight of the digits behind.
pub proof fn lemma_digits_front(digit: u64, digits: Seq<u64>, radix: nat)
    ensures
        digits_value(seq![digit] + digits, radix) == digit * pow(radix as int, digits.len())
            + digits_value(digits, radix),
    decreases digits.len(),
{
    reveal(pow);
    let all = seq![digit] + digits;
    if digits.len() == 0 {
        assert(all =~= seq![digit]);
        assert(all.drop_last() =~= Seq::<u64>::empty());
        assert(digits_value(all.drop_last(), radix) == 0);
        assert(0 * radix == 0);
        lemma_pow0(radix as int);
    } else {
        assert(all.drop_last() =~= seq![digit] + digits.drop_last());
        lemma_digits_front(digit, digits.drop_last(), radix);
        let p = pow(radix as int, (digits.len() - 1) as nat);
        let d = digit as int;
        let r = radix as int;
        let v = digits_value(digits.drop_last(), radix) as int;
        assert((d * p + v) * r == d * (r * p) + v * r) by (nonlinear_arith);
    }
}

/// Digits read from the other end stand for the same number.
pub proof fn lemma_digits_reverse(digits: Seq<u64>, radix: nat)
    ensures
        digits_value(digits.reverse(), radix) == digits_value_le(digits, radix),
    decreases digits.len(),
{
    if digits.len() > 0 {
        let front = digits.drop_last();
        assert(digits.reverse() =~= seq![digits.last()] + front.reverse());
        lemma_digits_front(digits.last(), front.reverse(), radix);
        lemma_digits_reverse(front, radix);
        lemma_digits_push(front, digits.last(), radix);
        assert(digits =~= front.push(digits.last()));
    } else {
        assert(digits.reverse() =~= Seq::<u64>::empty());
    }
}

/// With a radix of one or more, more digits never stand for less.
pub proof fn lemma_digits_monotonic(digits: Seq<u64>, n: int, radix: nat)
    requires
        0 <= n <= digits.len(),
        radix >= 1,
    ensures
        digits_value(digits.take(n), radix) <= digits_value(digits, radix),
    decreases digits.len() - n,
{
    if n < digits.len() {
        lemma_digits_monotonic(digits.drop_last(), n, radix);
        assert(digits.drop_last().take(n) =~= digits.take(n));
        let v = digits_value(digits.drop_last(), radix) as int;
        let r = radix as int;
        assert(v <= v * r) by (nonlinear_arith)
            requires
                r >= 1,
                v >= 0,
        ;
    } else {
        assert(digits.take(n) =~= digits);
    }
}

} // verus!

verus! {

impl<const BITS: usize, const LIMBS: usize> Uint<BITS, LIMBS> {
    /// The digits of the value in the given radix, least significant first:
    /// the remainders of repeated division by the radix, until nothing is
    /// left. Zero has the one digit zero.
    ///
    /// The radix may not be less than two.
    #[must_use]
    pub fn to_digits_le(&self, radix: u64) -> (digits: Vec<u64>)
        requires
            self.wf(),
            radix >= 2,
        ensures
            is_digits_le(digits@, radix as nat, self@),
    {
        let mut rest = *self.as_limbs();
        let mut digits: Vec<u64> = Vec::new();
        proof {
            lemma_pow0(radix as int);
            assert(1 * limbs_value(rest@) == limbs_value(rest@));
        }
        loop
            invariant_except_break
                radix >= 2,
                all_digits(digits@, radix as nat),
                self@ == digits_value_le(digits@, radix as nat) + pow(
                    radix as int,
                    digits@.len(),
                ) * limbs_value(rest@),
                digits@.len() == 0 ==> limbs_value(rest@) == self@,
                digits@.len() > 0 ==> limbs_value(rest@) > 0,
            ensures
                is_digits_le(digits@, radix as nat, self@),
            decreases limbs_value(rest@),
        {
            let ghost before = limbs_value(rest@) as int;
            let ghost seen = digits@;
            let (quotient, digit) = div_small(&rest, radix, 0);
            digits.push(digit);
            rest = quotient;
            proof {
                lemma_digits_push(seen, digit, radix as nat);
                reveal(pow);
                vstd::arithmetic::power::lemma_pow_positive(radix as int, seen.len());
                let p = pow(radix as int, seen.len());
                let q = limbs_value(quotient@) as int;
                let r = radix as int;
                let d = digit as int;
                assert(0 * weight(LIMBS as nat) == 0);
                assert(p * before == d * p + (r * p) * q) by (nonlinear_arith)
                    requires
                        q * r + d == before,
                ;
                assert(q > 0 ==> q < q * r) by (nonlinear_arith)
                    requires
                        r >= 2,
                ;
                assert(q == 0 ==> (r * p) * q == 0) by (nonlinear_arith);
                assert(q == 0 ==> q * r == 0) by (nonlinear_arith);
                assert(p > 0 && before > 0 ==> p * before > 0) by (nonlinear_arith);
            }
            if is_zero_limbs(&rest) {
                break;
            }
        }
        digits
    }

    /// The digits of the value in the given radix, most significant first.
    /// Zero has the one digit zero.
    ///
    /// The radix may not be less than two.
    #[must_use]
    pub fn to_digits_be(&self, radix: u64) -> (digits: Vec<u64>)
        requires
            self.wf(),
            radix >= 2,
        ensures
            is_digits_be(digits@, radix as nat, self@),
    {
        let low_first = self.to_digits_le(radix);
        let mut digits: Vec<u64> = Vec::new();
        let mut i: usize = low_first.len();
        while i > 0
            invariant
                i <= low_first.len(),
                digits@.len() == low_first.len() - i,
                forall|k: int|
                    0 <= k < digits@.len() ==> digits@[k] == low_first@[low_first.len() - 1 - k],
            decreases i,
        {
            i -= 1;
            digits.push(low_first[i]);
        }
        proof {
            assert(digits@ =~= low_first@.reverse());
            lemma_digits_reverse(low_first@, radix as nat);
        }
        digits
    }

    /// The value that the digits stand for in the given radix, most
    /// significant digit first, where that is below `2^BITS`. The digits are
    /// read in order, and the first that is not below the radix, or with
    /// which the number reaches `2^BITS`, ends the conversion with its
    /// error. No digits stand for zero.
    ///
    /// The radix may not be less than two.
    pub fn from_digits(radix: u64, digits: &[u64]) -> (r: Result<Self, BaseConvertError>)
        requires
            LIMBS == nlimbs(BITS),
            radix >= 2,
        ensures
            r matches Ok(v) ==> v.wf(),
            from_digits_outcome(
                BITS as nat,
                radix,
                digits@,
                match r {
                    Ok(v) => Ok(v@),
                    Err(e) => Err(e),
                },
            ),
    {
        let mut acc = [0u64; LIMBS];
        let mut i: usize = 0;
        proof {
            lemma_value_zero(acc@);
            lemma_pow2_pos(BITS as nat);
            assert(digits@.take(0) =~= Seq::<u64>::empty());
            lemma_weight_multiple(BITS);
        }
        while i < digits.len()
            invariant
                i <= digits@.len(),
                LIMBS == nlimbs(BITS),
                radix >= 2,
                all_digits(digits@.take(i as int), radix as nat),
                limbs_value(acc@) == digits_value(digits@.take(i as int), radix as nat),
                limbs_value(acc@) < pow2(BITS as nat),
                pow2(BITS as nat) <= weight(LIMBS as nat),
            decreases digits@.len() - i,
        {
            let digit = digits[i];
            if digit >= radix {
                return Err(BaseConvertError::InvalidDigit(digit, radix));
            }
            let (next, carry) = mul_small(&acc, radix, digit);
            proof {
                assert(digits@.take(i + 1) =~= digits@.take(i as int).push(digit));
                lemma_digits_push(digits@.take(i as int), digit, radix as nat);
                lemma_canonical_bound(BITS, next@);
                let c = carry as int;
                let w = weight(LIMBS as nat) as int;
                assert(c >= 1 ==> c * w >= w) by (nonlinear_arith)
                    requires
                        w >= 0,
                ;
                assert(c == 0 ==> c * w == 0) by (nonlinear_arith);
            }
            if carry != 0 || (BITS > 0 && next[LIMBS - 1] > crate::mask(BITS)) {
                return Err(BaseConvertError::Overflow);
            }
            acc = next;
            i += 1;
        }
        proof {
            assert(digits@.take(digits@.len() as int) =~= digits@);
            lemma_canonical_bound(BITS, acc@);
        }
        Ok(Self::from_limbs(acc))
    }

    /// The value that the digits stand for in the given radix, most
    /// significant digit first, modulo `2^BITS`. The digits are taken as
    /// they are, whether below the radix or not.
    ///
    /// The radix may not be less than two.
    #[must_use]
    pub fn wrapping_from_digits(radix: u64, digits: &[u64]) -> (r: Self)
        requires
            LIMBS == nlimbs(BITS),
            radix >= 2,
        ensures
            r.wf(),
            r@ == digits_value(digits@, radix as nat) % pow2(BITS as nat),
    {
        let mut acc = [0u64; LIMBS];
        let mut i: usize = 0;
        proof {
            lemma_value_zero(acc@);
            crate::limbs::lemma_weight_pos(LIMBS as nat);
            assert(digits@.take(0) =~= Seq::<u64>::empty());
            lemma_small_mod(0, weight(LIMBS as nat));
        }
        while i < digits.len()
            invariant
                i <= digits@.len(),
                weight(LIMBS as nat) > 0,
                limbs_value(acc@) == digits_value(digits@.take(i as int), radix as nat) % weight(
                    LIMBS as nat,
                ),
            decreases digits@.len() - i,
        {
            let digit = digits[i];
            let (next, carry) = mul_small(&acc, radix, digit);
            proof {
                assert(digits@.take(i + 1) =~= digits@.take(i as int).push(digit));
                lemma_digits_push(digits@.take(i as int), digit, radix as nat);
                crate::limbs::lemma_value_bound(next@);
                let w = weight(LIMBS as nat) as int;
                let seen = digits_value(digits@.take(i as int), radix as nat) as int;
                let r = radix as int;
                let d = digit as int;
                let n = limbs_value(next@) as int;
                let c = carry as int;
                assert(c * w == w * c) by (nonlinear_arith);
                vstd::arithmetic::div_mod::lemma_fundamental_div_mod_converse(
                    (seen % w) * r + d,
                    w,
                    c,
                    n,
                );
                lemma_mul_mod_noop_left(seen, r, w);
                lemma_add_mod_noop(seen * r, d, w);
                lemma_add_mod_noop((seen % w) * r, d, w);
            }
            acc = next;
            i += 1;
        }
        proof {
            assert(digits@.take(digits@.len() as int) =~= digits@);
            lemma_weight_multiple(BITS);
            lemma_pow2_pos((64 * nlimbs(BITS) - BITS) as nat);
            lemma_mod_mod(
                digits_value(digits@, radix as nat) as int,
                pow2(BITS as nat) as int,
                pow2((64 * nlimbs(BITS) - BITS) as nat) as int,
            );
        }
        Self::overflowing_from_limbs(acc).0
    }

    /// Round trip: the digits of a value, most significant first, convert
    /// back to that value. This holds of every radix of two or more.
    pub proof fn lemma_digits_round_trip(
        value: Self,
        radix: u64,
        digits: Seq<u64>,
        back: Result<Self, BaseConvertError>,
    )
        requires
            value.wf(),
            radix >= 2,
            is_digits_be(digits, radix as nat, value@),
            back matches Ok(v) ==> v.wf(),
            from_digits_outcome(
                BITS as nat,
                radix,
                digits,
                match back {
                    Ok(v) => Ok(v@),
                    Err(e) => Err(e),
                },
            ),
        ensures
            back == Ok::<Self, BaseConvertError>(value),
    {
        value.lemma_wf();
        match back {
            Ok(v) => {
                v.lemma_len();
                value.lemma_len();
                lemma_value_unique(v.limb_seq(), value.limb_seq());
                v.lemma_ext(&value);
            },
            Err(BaseConvertError::InvalidDigit(digit, base)) => {
                assert(false);
            },
            Err(BaseConvertError::Overflow) => {
                let n = choose|n: int|
                    {
                        &&& 1 <= n <= digits.len()
                        &&& all_digits(#[trigger] digits.take(n), radix as nat)
                        &&& digits_value(digits.take(n), radix as nat) >= pow2(BITS as nat)
                    };
                lemma_digits_monotonic(digits, n, radix as nat);
                assert(false);
            },
        }
    }
}

} // verus!
