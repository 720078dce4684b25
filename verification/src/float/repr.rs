//! The bit pattern of a binary32 number and the value that it stands for.

use vstd::arithmetic::power2::{lemma2_to64, lemma_pow2_pos, lemma_pow2_unfold, pow2};
use vstd::prelude::*;

verus! {

/// A binary32 number, held as its bit pattern: one sign bit, eight exponent bits
/// and twenty-three fraction bits.
///
/// `==` compares patterns, so the two zeros differ and a NaN equals itself.
#[derive(Clone, Copy, Debug, PartialEq, Eq, Structural)]
pub struct F32 {
    pub bits: u32,
}

/// The weight of the sign bit.
pub const SIGN_BIT: u32 = 0x8000_0000;

/// The magnitude of the infinities. Every larger magnitude is a NaN.
pub const INF_MAGNITUDE: u32 = 0x7f80_0000;

/// The pattern of the NaN that every invalid operation gives.
pub const NAN_BITS: u32 = 0x7fc0_0000;

/// The number of values in one binade, two to the twenty-third.
pub const BINADE: u32 = 0x80_0000;

/// The value of a magnitude, in units of the smallest positive number.
///
/// All finite numbers are whole multiples of that unit, two to the power of minus
/// 149. The formula is also read at the magnitude of infinity, where it gives the
/// first power of two that has no finite number.
pub open spec fn grid(m: nat) -> nat {
    let exponent = m / 0x80_0000;
    let fraction = m % 0x80_0000;
    if exponent == 0 {
        fraction
    } else {
        (0x80_0000 + fraction) * pow2((exponent - 1) as nat)
    }
}

impl F32 {
    /// Whether the sign bit is set.
    pub open spec fn negative(self) -> bool {
        self.bits >= SIGN_BIT
    }

    /// The pattern without its sign bit.
    pub open spec fn magnitude(self) -> nat {
        (self.bits % SIGN_BIT) as nat
    }

    pub open spec fn is_nan(self) -> bool {
        self.magnitude() > INF_MAGNITUDE
    }

    pub open spec fn is_infinite(self) -> bool {
        self.magnitude() == INF_MAGNITUDE
    }

    pub open spec fn is_finite(self) -> bool {
        self.magnitude() < INF_MAGNITUDE
    }

    pub open spec fn is_zero(self) -> bool {
        self.magnitude() == 0
    }

    /// The value of a finite number, in units of two to the power of minus 149.
    pub open spec fn scaled(self) -> int {
        if self.negative() {
            -(grid(self.magnitude()) as int)
        } else {
            grid(self.magnitude()) as int
        }
    }

    /// The number with the given sign and magnitude.
    pub open spec fn of(negative: bool, magnitude: nat) -> F32 {
        F32 {
            bits: if negative {
                (SIGN_BIT + magnitude) as u32
            } else {
                magnitude as u32
            },
        }
    }

    /// The NaN that every invalid operation gives.
    pub open spec fn nan() -> F32 {
        F32 { bits: NAN_BITS }
    }

    /// The number with the given bit pattern.
    pub fn from_bits(bits: u32) -> (r: F32)
        ensures
            r.bits == bits,
    {
        F32 { bits }
    }

    /// The bit pattern.
    pub fn to_bits(self) -> (r: u32)
        ensures
            r == self.bits,
    {
        self.bits
    }
}

/// Taking a number apart and putting it together again changes nothing.
pub proof fn lemma_of_parts(x: F32)
    ensures
        F32::of(x.negative(), x.magnitude()) == x,
{
}

/// Putting a sign and a magnitude together gives a number with these parts.
pub proof fn lemma_parts_of(negative: bool, magnitude: nat)
    requires
        magnitude < SIGN_BIT,
    ensures
        F32::of(negative, magnitude).negative() == negative,
        F32::of(negative, magnitude).magnitude() == magnitude,
{
}

/// The value of a magnitude from a significand and an exponent: `s` lies below two
/// binades, and is at least one binade where the exponent is not the least one.
pub proof fn lemma_grid_split(s: nat, e: nat)
    requires
        s < 0x100_0000,
        e == 0 || s >= 0x80_0000,
    ensures
        grid(e * 0x80_0000 + s) == s * pow2(e),
        grid(e * 0x80_0000 + s + 1) == (s + 1) * pow2(e),
{
    lemma2_to64();
    lemma_grid_split_one(s, e);
    if s + 1 < 0x100_0000 {
        lemma_grid_split_one(s + 1, e);
    } else {
        assert(e * 0x80_0000 + s + 1 == (e + 2) * 0x80_0000);
        assert(((e + 2) * 0x80_0000nat) / 0x80_0000 == e + 2);
        assert(((e + 2) * 0x80_0000nat) % 0x80_0000 == 0);
        lemma_pow2_unfold(e + 1);
        assert(grid(e * 0x80_0000 + s + 1) == 0x80_0000 * pow2(e + 1));
        assert(0x80_0000 * (2 * pow2(e)) == 0x100_0000 * pow2(e));
    }
}

proof fn lemma_grid_split_one(s: nat, e: nat)
    requires
        s < 0x100_0000,
        e == 0 || s >= 0x80_0000,
    ensures
        grid(e * 0x80_0000 + s) == s * pow2(e),
{
    lemma2_to64();
    let m = e * 0x80_0000 + s;
    if s < 0x80_0000 {
        assert(m / 0x80_0000 == 0);
        assert(m % 0x80_0000 == s);
    } else {
        assert(m / 0x80_0000 == e + 1);
        assert(m % 0x80_0000 == s - 0x80_0000);
    }
    assert(s * 1 == s);
}

/// The significand and the exponent of a magnitude.
pub open spec fn significand(m: nat) -> nat {
    if m < 0x80_0000 {
        m
    } else {
        0x80_0000 + m % 0x80_0000
    }
}

/// The exponent that belongs to [`significand`].
pub open spec fn exponent(m: nat) -> nat {
    if m < 0x80_0000 {
        0
    } else {
        (m / 0x80_0000 - 1) as nat
    }
}

pub proof fn lemma_significand(m: nat)
    ensures
        significand(m) < 0x100_0000,
        m == exponent(m) * 0x80_0000 + significand(m),
        exponent(m) == 0 || significand(m) >= 0x80_0000,
        grid(m) == significand(m) * pow2(exponent(m)),
        grid(m + 1) == (significand(m) + 1) * pow2(exponent(m)),
        m > 0 <==> significand(m) > 0,
{
    lemma_grid_split(significand(m), exponent(m));
}

/// Larger magnitudes have larger values.
pub proof fn lemma_grid_increases(a: nat, b: nat)
    requires
        a < b,
    ensures
        grid(a) < grid(b),
    decreases b,
{
    lemma_significand((b - 1) as nat);
    lemma_pow2_pos(exponent((b - 1) as nat));
    let s = significand((b - 1) as nat);
    let p = pow2(exponent((b - 1) as nat));
    assert((s + 1) * p == s * p + p) by (nonlinear_arith);
    if a < b - 1 {
        lemma_grid_increases(a, (b - 1) as nat);
    }
}

} // verus!
