//! Numbers that the formulas of the blur hold.

use super::repr::F32;
use vstd::prelude::*;

verus! {

/// The bit pattern of zero.
pub const ZERO_BITS: u32 = 0;

/// The bit pattern of one.
pub const ONE_BITS: u32 = 0x3f80_0000;

/// The bit pattern of two.
pub const TWO_BITS: u32 = 0x4000_0000;

/// The bit pattern of three.
pub const THREE_BITS: u32 = 0x4040_0000;

/// The bit pattern of the number nearest to pi.
pub const PI_BITS: u32 = 0x4049_0fdb;

/// The number zero.
pub open spec fn zero() -> F32 {
    F32 { bits: ZERO_BITS }
}

/// The number one.
pub open spec fn one() -> F32 {
    F32 { bits: ONE_BITS }
}

/// The number two.
pub open spec fn two() -> F32 {
    F32 { bits: TWO_BITS }
}

/// The number three.
pub open spec fn three() -> F32 {
    F32 { bits: THREE_BITS }
}

/// The number nearest to pi.
pub open spec fn pi() -> F32 {
    F32 { bits: PI_BITS }
}

} // verus!
