//! The same storage seen as a vector of bits.

use crate::bits::{bit_at, bit_length};
use crate::Uint;
use vstd::arithmetic::power2::pow2;
use vstd::prelude::*;

verus! {

/// A [`Uint`] restricted to the operations of a bit vector: reading and
/// setting single bits, and shifts that report when a set bit is lost.
#[derive(Clone, Copy, Debug, PartialEq, Eq, Hash)]
pub struct Bits<const BITS: usize, const LIMBS: usize>(Uint<BITS, LIMBS>);

impl<const BITS: usize, const LIMBS: usize> View for Bits<BITS, LIMBS> {
    type V = nat;

    /// The bits, read as a number: bit `i` has the weight `2^i`.
    open spec fn view(&self) -> nat {
        self.inner()@
    }
}

impl<const BITS: usize, const LIMBS: usize> Bits<BITS, LIMBS> {
    /// The value that holds the bits.
    pub closed spec fn inner(&self) -> Uint<BITS, LIMBS> {
        self.0
    }

    /// The invariant of the value that holds the bits.
    pub open spec fn wf(&self) -> bool {
        self.inner().wf()
    }

    /// The bits of a value.
    #[must_use]
    pub fn from_uint(value: Uint<BITS, LIMBS>) -> (r: Self)
        ensures
            r.inner() == value,
    {
        Bits(value)
    }

    /// The value that holds the bits.
    #[must_use]
    pub fn into_inner(self) -> (r: Uint<BITS, LIMBS>)
        ensures
            r == self.inner(),
    {
        self.0
    }

    /// The value that holds the bits.
    #[must_use]
    pub fn as_uint(&self) -> (r: &Uint<BITS, LIMBS>)
        ensures
            *r == self.inner(),
    {
        &self.0
    }

    /// Returns whether a specific bit is set. Bits at `BITS` and above are
    /// never set.
    #[must_use]
    pub fn bit(&self, index: usize) -> (r: bool)
        requires
            self.wf(),
        ensures
            r == bit_at(self@, index as nat),
    {
        self.0.bit(index)
    }

    /// Sets a specific bit to a value; every other bit stays as it is.
    ///
    /// The index must be below `BITS`.
    pub fn set_bit(&mut self, index: usize, value: bool)
        requires
            old(self).wf(),
            index < BITS,
        ensures
            final(self).wf(),
            bit_at(final(self)@, index as nat) == value,
            forall|i: nat| i != index ==> bit_at(final(self)@, i) == bit_at(old(self)@, i),
    {
        let mut inner = self.0;
        inner.set_bit(index, value);
        self.0 = inner;
    }

    /// Returns the number of leading zeros.
    #[must_use]
    pub fn leading_zeros(&self) -> (r: usize)
        requires
            self.wf(),
        ensures
            r == BITS - bit_length(self@),
    {
        self.0.leading_zeros()
    }

    /// Left shift by `rhs` bits with overflow detection: the bits that
    /// stay, and whether a set bit was shifted out. A shift by less than
    /// `BITS` overflows where it pushes a set bit past the highest place.
    #[must_use]
    pub fn overflowing_shl(self, rhs: usize) -> (r: (Self, bool))
        requires
            self.wf(),
        ensures
            r.0.wf(),
            r.0@ == (self@ * pow2(rhs as nat)) % pow2(BITS as nat),
            r.1 == (self@ * pow2(rhs as nat) >= pow2(BITS as nat)),
            r.1 == (self@ > 0 && bit_length(self@) + rhs > BITS),
    {
        let (value, overflow) = self.0.overflowing_shl(rhs);
        (Bits(value), overflow)
    }

    /// Left shift by `rhs` bits, or `None` if a set bit is shifted out.
    #[must_use]
    pub fn checked_shl(self, rhs: usize) -> (r: Option<Self>)
        requires
            self.wf(),
        ensures
            r is None <==> self@ > 0 && bit_length(self@) + rhs > BITS,
            r is Some <==> self@ * pow2(rhs as nat) < pow2(BITS as nat),
            r matches Some(v) ==> v.wf() && v@ == self@ * pow2(rhs as nat),
    {
        match self.0.checked_shl(rhs) {
            Some(value) => Some(Bits(value)),
            None => None,
        }
    }

    /// Left shift by `rhs` bits: the bits that are shifted out are lost.
    #[must_use]
    pub fn wrapping_shl(self, rhs: usize) -> (r: Self)
        requires
            self.wf(),
        ensures
            r.wf(),
            r@ == (self@ * pow2(rhs as nat)) % pow2(BITS as nat),
    {
        Bits(self.0.wrapping_shl(rhs))
    }

    /// Right shift by `rhs` bits with overflow detection: the bits that
    /// stay, and whether a set bit was shifted out.
    #[must_use]
    pub fn overflowing_shr(self, rhs: usize) -> (r: (Self, bool))
        requires
            self.wf(),
        ensures
            r.0.wf(),
            r.0@ == self@ / pow2(rhs as nat),
            r.1 == (self@ % pow2(rhs as nat) != 0),
    {
        let (value, overflow) = self.0.overflowing_shr(rhs);
        (Bits(value), overflow)
    }

    /// Right shift by `rhs` bits, or `None` if a set bit is shifted out.
    #[must_use]
    pub fn checked_shr(self, rhs: usize) -> (r: Option<Self>)
        requires
            self.wf(),
        ensures
            r is None <==> self@ % pow2(rhs as nat) != 0,
            r matches Some(v) ==> v.wf() && v@ == self@ / pow2(rhs as nat),
    {
        match self.0.checked_shr(rhs) {
            Some(value) => Some(Bits(value)),
            None => None,
        }
    }

    /// Right shift by `rhs` bits: the bits that are shifted out are lost.
    #[must_use]
    pub fn wrapping_shr(self, rhs: usize) -> (r: Self)
        requires
            self.wf(),
        ensures
            r.wf(),
            r@ == self@ / pow2(rhs as nat),
    {
        Bits(self.0.wrapping_shr(rhs))
    }
}

} // verus!
