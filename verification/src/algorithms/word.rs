//! Single-limb steps with a double-width intermediate.

use crate::limbs::radix;
use vstd::prelude::*;

verus! {

/// The low limb of a double-width number.
pub fn low(t: u128) -> (r: u64)
    ensures
        r == t % 0x1_0000_0000_0000_0000,
{
    assert(t as u64 == t % 0x1_0000_0000_0000_0000u128) by (bit_vector);
    #[verifier::truncate]
    (t as u64)
}

/// The high limb of a double-width number.
pub fn high(t: u128) -> (r: u64)
    ensures
        r == t / 0x1_0000_0000_0000_0000,
{
    assert(t >> 64 == t / 0x1_0000_0000_0000_0000u128) by (bit_vector);
    assert((t >> 64) < 0x1_0000_0000_0000_0000u128) by (bit_vector);
    (t >> 64) as u64
}

/// Adds two limbs and a carry: the sum's low limb and the carry out of it.
pub fn adc(a: u64, b: u64, carry: bool) -> (r: (u64, bool))
    ensures
        r.0 + (if r.1 { radix() } else { 0 }) == a + b + (if carry { 1nat } else { 0 }),
{
    let c: u128 = if carry { 1 } else { 0 };
    let t: u128 = a as u128 + b as u128 + c;
    (low(t), high(t) != 0)
}

/// Subtracts a limb and a borrow from a limb: the difference's low limb and
/// the borrow out of it.
pub fn sbb(a: u64, b: u64, borrow: bool) -> (r: (u64, bool))
    ensures
        r.0 - (if r.1 { radix() as int } else { 0 }) == a - b - (if borrow { 1int } else { 0 }),
{
    let c: u128 = if borrow { 1 } else { 0 };
    let t: u128 = 0x1_0000_0000_0000_0000u128 + a as u128 - b as u128 - c;
    (low(t), high(t) == 0)
}

/// Multiplies two limbs and adds two more: `a * b + c + d` never overflows
/// two limbs. Returns the low and the high limb.
pub fn mac(a: u64, b: u64, c: u64, d: u64) -> (r: (u64, u64))
    ensures
        r.0 + r.1 * radix() == a * b + c + d,
{
    assert(a * b + c + d <= 0xffff_ffff_ffff_ffff_ffff_ffff_ffff_ffff) by (nonlinear_arith)
        requires
            a <= 0xffff_ffff_ffff_ffff,
            b <= 0xffff_ffff_ffff_ffff,
            c <= 0xffff_ffff_ffff_ffff,
            d <= 0xffff_ffff_ffff_ffff,
    ;
    assert(a * b <= 0xffff_ffff_ffff_ffff_ffff_ffff_ffff_ffff) by (nonlinear_arith)
        requires
            a <= 0xffff_ffff_ffff_ffff,
            b <= 0xffff_ffff_ffff_ffff,
    ;
    let t: u128 = (a as u128) * (b as u128) + c as u128 + d as u128;
    (low(t), high(t))
}

} // verus!
