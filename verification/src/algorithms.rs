//! The arithmetic kernels: loops over limbs, with contracts over the numbers
//! that the limbs stand for.

pub mod add;
pub mod compare;
pub mod div;
pub mod mul;
pub mod shift;
pub mod wide;
pub mod word;
