//! RGBA pixels.

use crate::float::arith::{difference, product, sum};
use crate::float::convert::{byte_of, clamped, of_int};
use crate::float::lanes::F32x4;
use crate::float::numbers::{one, zero, ONE_BITS, ZERO_BITS};
use crate::float::repr::F32;
use vstd::prelude::*;

verus! {

/// An RGBA pixel.
#[derive(Clone, Copy, Debug, PartialEq, Eq, Structural)]
pub struct Pixel {
    pub r: u8,
    pub g: u8,
    pub b: u8,
    pub a: u8,
}

/// The channels of a pixel by number: red, green, blue, alpha.
pub open spec fn channel(p: Pixel, c: int) -> u8 {
    if c == 0 {
        p.r
    } else if c == 1 {
        p.g
    } else if c == 2 {
        p.b
    } else {
        p.a
    }
}

/// One channel of a blend: the share of `a` is the second's, the rest the first's.
pub open spec fn blended_channel(first: u8, second: u8, a: F32) -> u8 {
    byte_of(
        sum(
            product(of_int(first as int), difference(one(), a)),
            product(of_int(second as int), a),
        ),
    )
}

/// Two pixels blended, with the share of the second moved into the range from zero to
/// one.
pub open spec fn blended(first: Pixel, second: Pixel, alpha: F32) -> Pixel {
    let a = clamped(alpha, zero(), one());
    Pixel {
        r: blended_channel(first.r, second.r, a),
        g: blended_channel(first.g, second.g, a),
        b: blended_channel(first.b, second.b, a),
        a: blended_channel(first.a, second.a, a),
    }
}

impl Default for Pixel {
    /// A transparent black pixel.
    fn default() -> (p: Pixel)
        ensures
            p == (Pixel { r: 0, g: 0, b: 0, a: 0 }),
    {
        Pixel { r: 0, g: 0, b: 0, a: 0 }
    }
}

impl Pixel {
    /// Create a new pixel
    pub fn new(r: u8, g: u8, b: u8, a: u8) -> (p: Pixel)
        ensures
            p == (Pixel { r, g, b, a }),
    {
        Pixel { r, g, b, a }
    }

    /// Create from RGB values (alpha = 255)
    pub fn rgb(r: u8, g: u8, b: u8) -> (p: Pixel)
        ensures
            p == (Pixel { r, g, b, a: 255 }),
    {
        Pixel { r, g, b, a: 255 }
    }

    /// The channels as numbers.
    pub fn to_f32_array(&self) -> (s: [F32; 4])
        ensures
            forall|c: int| 0 <= c < 4 ==> s@[c] == of_int(channel(*self, c) as int),
    {
        [F32::from_u8(self.r), F32::from_u8(self.g), F32::from_u8(self.b), F32::from_u8(self.a)]
    }

    /// The channels as lanes.
    pub fn to_simd(&self) -> (s: F32x4)
        ensures
            s@.len() == 4,
            forall|c: int| 0 <= c < 4 ==> s@[c] == of_int(channel(*self, c) as int),
    {
        F32x4::from_array(self.to_f32_array())
    }

    /// The pixel with the given channels, each without its fraction and cut off at the
    /// ends of the range of a byte.
    pub fn from_f32_array(arr: [F32; 4]) -> (p: Pixel)
        ensures
            forall|c: int| 0 <= c < 4 ==> channel(p, c) == byte_of(#[trigger] arr@[c]),
            p.r == byte_of(arr@[0]),
            p.g == byte_of(arr@[1]),
            p.b == byte_of(arr@[2]),
            p.a == byte_of(arr@[3]),
    {
        Pixel {
            r: arr[0].to_u8(),
            g: arr[1].to_u8(),
            b: arr[2].to_u8(),
            a: arr[3].to_u8(),
        }
    }

    /// The pixel with the given lanes, each without its fraction and cut off at the ends
    /// of the range of a byte.
    pub fn from_simd(simd: F32x4) -> (p: Pixel)
        ensures
            forall|c: int| 0 <= c < 4 ==> channel(p, c) == byte_of(#[trigger] simd@[c]),
            p.r == byte_of(simd@[0]),
            p.g == byte_of(simd@[1]),
            p.b == byte_of(simd@[2]),
            p.a == byte_of(simd@[3]),
    {
        let arr = simd.to_array();
        Pixel::from_f32_array(arr)
    }

    /// Blend with another pixel: none of it at an alpha of zero, nothing else at one.
    pub fn blend(&self, other: &Pixel, alpha: F32) -> (p: Pixel)
        ensures
            p == blended(*self, *other, alpha),
    {
        let zero = F32::from_bits(ZERO_BITS);
        let one = F32::from_bits(ONE_BITS);
        let a = alpha.clamp(zero, one);
        let rest = one.minus(a);
        let r = F32::from_u8(self.r).times(rest).plus(F32::from_u8(other.r).times(a));
        let g = F32::from_u8(self.g).times(rest).plus(F32::from_u8(other.g).times(a));
        let b = F32::from_u8(self.b).times(rest).plus(F32::from_u8(other.b).times(a));
        let alpha = F32::from_u8(self.a).times(rest).plus(F32::from_u8(other.a).times(a));
        Pixel::new(r.to_u8(), g.to_u8(), b.to_u8(), alpha.to_u8())
    }
}

} // verus!
