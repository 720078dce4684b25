//! Comparisons, and conversions from and to whole numbers.

use super::arith::{round_whole, unpack};
use super::repr::{grid, lemma_grid_increases, F32, INF_MAGNITUDE};
use super::round::nearest;
use vstd::arithmetic::power2::{
    lemma2_to64, lemma2_to64_rest, lemma_pow2_adds, lemma_pow2_pos, lemma_pow2_strictly_increases,
    pow2,
};
use vstd::bits::{lemma_u64_shl_is_mul, lemma_u64_shr_is_div};
use vstd::prelude::*;

verus! {

/// The place of a number in the order of all numbers; both zeros have the same.
pub open spec fn rank(a: F32) -> int {
    if a.negative() {
        -(a.magnitude() as int)
    } else {
        a.magnitude() as int
    }
}

/// Whether `a < b`. Nothing is less or greater than a NaN.
pub open spec fn less(a: F32, b: F32) -> bool {
    !a.is_nan() && !b.is_nan() && rank(a) < rank(b)
}

/// Whether `a <= b`.
pub open spec fn at_most(a: F32, b: F32) -> bool {
    !a.is_nan() && !b.is_nan() && rank(a) <= rank(b)
}

/// `a`, moved into the range from `low` to `high`. A NaN stays as it is.
pub open spec fn clamped(a: F32, low: F32, high: F32) -> F32 {
    if less(a, low) {
        low
    } else if less(high, a) {
        high
    } else {
        a
    }
}

/// The number nearest to a whole number.
#[verifier::opaque]
pub open spec fn of_int(i: int) -> F32 {
    if i < 0 {
        F32::of(true, nearest((-i) as nat * pow2(149), 1))
    } else {
        F32::of(false, nearest(i as nat * pow2(149), 1))
    }
}

/// The whole part of the value of a magnitude. That of infinity is larger than every
/// machine integer.
pub open spec fn whole(m: nat) -> nat {
    grid(m) / pow2(149)
}

/// The least whole number that is not below `a`, for a number that is no NaN.
pub open spec fn ceiling(a: F32) -> int {
    if a.negative() {
        -(whole(a.magnitude()) as int)
    } else {
        (grid(a.magnitude()) + pow2(149) - 1) / pow2(149) as int
    }
}

/// The value of `a` without its fraction, cut off at the ends of the range of a byte.
/// A NaN gives zero.
#[verifier::opaque]
pub open spec fn byte_of(a: F32) -> u8 {
    if a.is_nan() || a.negative() {
        0
    } else if whole(a.magnitude()) > 255 {
        255
    } else {
        whole(a.magnitude()) as u8
    }
}

/// The ceiling of `a`, cut off at the ends of the range of a 32-bit integer. A NaN
/// gives zero.
#[verifier::opaque]
pub open spec fn ceiling_i32(a: F32) -> int {
    if a.is_nan() {
        0
    } else if ceiling(a) < i32::MIN {
        i32::MIN as int
    } else if ceiling(a) > i32::MAX {
        i32::MAX as int
    } else {
        ceiling(a)
    }
}

/// The greatest whole number that is not above `a`, cut off at the ends of the range
/// of a machine word. A NaN gives zero.
#[verifier::opaque]
pub open spec fn floor_usize(a: F32) -> nat {
    if a.is_nan() || a.negative() {
        0
    } else if whole(a.magnitude()) > usize::MAX {
        usize::MAX as nat
    } else {
        whole(a.magnitude())
    }
}

/// The whole number nearest to `a`, halves away from zero, cut off at zero and at
/// `limit`. A NaN gives zero.
#[verifier::opaque]
pub open spec fn rounded_count(a: F32, limit: nat) -> nat {
    let count = (2 * grid(a.magnitude()) + pow2(149)) / (2 * pow2(149));
    if a.is_nan() || a.negative() {
        0
    } else if count > limit {
        limit
    } else {
        count
    }
}

/// Numbers are ordered by their values.
pub proof fn law_less_is_by_value(a: F32, b: F32)
    requires
        a.is_finite(),
        b.is_finite(),
    ensures
        less(a, b) <==> a.scaled() < b.scaled(),
{
    let ma = a.magnitude();
    let mb = b.magnitude();
    assert(grid(0) == 0);
    if ma > 0 {
        lemma_grid_increases(0, ma);
    }
    if mb > 0 {
        lemma_grid_increases(0, mb);
    }
    if ma < mb {
        lemma_grid_increases(ma, mb);
    } else if mb < ma {
        lemma_grid_increases(mb, ma);
    }
}

/// The value of a magnitude in units of two to the power of `unit - 149`, without its
/// fraction, and cut off at the largest 64-bit integer.
fn whole_in(m: u32, unit: u32) -> (r: u64)
    requires
        m <= INF_MAGNITUDE,
        148 <= unit <= 149,
    ensures
        grid(m as nat) / pow2(unit as nat) <= u64::MAX ==> r == grid(m as nat) / pow2(unit as nat),
        grid(m as nat) / pow2(unit as nat) > u64::MAX ==> r == u64::MAX,
{
    let (s, e) = unpack(m);
    let ghost pe = pow2(e as nat);
    let ghost pu = pow2(unit as nat);
    proof {
        lemma2_to64();
        lemma2_to64_rest();
        lemma_pow2_pos(unit as nat);
        lemma_pow2_pos(e as nat);
    }
    if e >= unit {
        let sh: u32 = e - unit;
        let ghost ps = pow2(sh as nat);
        proof {
            lemma_pow2_adds(sh as nat, unit as nat);
            assert((s * pe) as int / pu as int == s * ps) by (nonlinear_arith)
                requires
                    pe == ps * pu,
                    pu > 0,
            ;
        }
        if sh <= 40 {
            proof {
                if sh < 40 {
                    lemma_pow2_strictly_increases(sh as nat, 40);
                }
                assert(s * ps <= 0xff_ffff * 0x100_0000_0000) by (nonlinear_arith)
                    requires
                        s <= 0xff_ffff,
                        ps <= 0x100_0000_0000,
                ;
                lemma_u64_shl_is_mul(s as u64, sh as u64);
            }
            (s as u64) << (sh as u64)
        } else {
            proof {
                if sh > 41 {
                    lemma_pow2_strictly_increases(41, sh as nat);
                }
                assert(s * ps >= 0x80_0000 * 0x200_0000_0000) by (nonlinear_arith)
                    requires
                        s >= 0x80_0000,
                        ps >= 0x200_0000_0000,
                ;
            }
            u64::MAX
        }
    } else {
        let sh: u32 = unit - e;
        let ghost ps = pow2(sh as nat);
        proof {
            lemma_pow2_adds(sh as nat, e as nat);
            lemma_pow2_pos(sh as nat);
            lemma_scaled_division(s as nat, ps, pe);
        }
        if sh >= 24 {
            proof {
                if sh > 24 {
                    lemma_pow2_strictly_increases(24, sh as nat);
                }
                assert(s as int / ps as int == 0) by (nonlinear_arith)
                    requires
                        0 <= s < ps,
                ;
            }
            0
        } else {
            proof {
                lemma_u64_shr_is_div(s as u64, sh as u64);
                assert(s as int / ps as int <= s) by (nonlinear_arith)
                    requires
                        s >= 0,
                        ps >= 1,
                ;
            }
            (s as u64) >> (sh as u64)
        }
    }
}

proof fn lemma_scaled_division(s: nat, ps: nat, pe: nat)
    requires
        ps > 0,
        pe > 0,
    ensures
        (s * pe) / (ps * pe) == s / ps,
{
    vstd::arithmetic::div_mod::lemma_div_denominator((s * pe) as int, pe as int, ps as int);
    vstd::arithmetic::div_mod::lemma_div_multiples_vanish(s as int, pe as int);
    assert(pe * s == s * pe) by (nonlinear_arith);
    assert(pe * ps == ps * pe) by (nonlinear_arith);
}

/// Whether the value of a magnitude has a fraction.
fn has_fraction(m: u32) -> (r: bool)
    requires
        m <= INF_MAGNITUDE,
    ensures
        r == (whole(m as nat) * pow2(149) != grid(m as nat)),
{
    let (s, e) = unpack(m);
    let ghost pe = pow2(e as nat);
    let ghost unit = pow2(149);
    proof {
        lemma2_to64();
        lemma2_to64_rest();
        lemma_pow2_pos(149);
        lemma_pow2_pos(e as nat);
    }
    if e >= 149 {
        proof {
            let ps = pow2((e - 149) as nat);
            lemma_pow2_adds((e - 149) as nat, 149);
            assert((s * pe) as int / unit as int == s * ps) by (nonlinear_arith)
                requires
                    pe == ps * unit,
                    unit > 0,
            ;
            assert((s * ps) * unit == s * (ps * unit)) by (nonlinear_arith);
        }
        false
    } else {
        let sh: u32 = 149 - e;
        let ghost ps = pow2(sh as nat);
        proof {
            lemma_pow2_adds(sh as nat, e as nat);
            lemma_pow2_pos(sh as nat);
            lemma_scaled_division(s as nat, ps, pe);
        }
        let w: u64 = if sh >= 24 {
            0
        } else {
            (s as u64) >> (sh as u64)
        };
        proof {
            if sh >= 24 {
                if sh > 24 {
                    lemma_pow2_strictly_increases(24, sh as nat);
                }
                assert(s as int / ps as int == 0) by (nonlinear_arith)
                    requires
                        0 <= s < ps,
                ;
            } else {
                lemma_u64_shr_is_div(s as u64, sh as u64);
            }
            assert(w == s as nat / ps);
            assert(w * ps <= s) by (nonlinear_arith)
                requires
                    w == s as int / ps as int,
                    ps > 0,
            ;
            assert((w * ps) * pe == w * (ps * pe)) by (nonlinear_arith);
            assert((w * ps) * pe == s * pe ==> w * ps == s) by (nonlinear_arith)
                requires
                    pe > 0,
            ;
        }
        if sh >= 24 {
            assert(0 * ps == 0);
            s != 0
        } else {
            proof {
                lemma_u64_shl_is_mul(w, sh as u64);
            }
            (w << (sh as u64)) != s as u64
        }
    }
}

impl F32 {
    /// Whether `self < other`.
    pub fn lt(self, other: F32) -> (r: bool)
        ensures
            r == less(self, other),
    {
        let a = self.magnitude_bits();
        let b = other.magnitude_bits();
        if a > INF_MAGNITUDE || b > INF_MAGNITUDE {
            return false;
        }
        let left: i64 = if self.is_negative() {
            -(a as i64)
        } else {
            a as i64
        };
        let right: i64 = if other.is_negative() {
            -(b as i64)
        } else {
            b as i64
        };
        left < right
    }

    /// Whether `self <= other`.
    pub fn le(self, other: F32) -> (r: bool)
        ensures
            r == at_most(self, other),
    {
        let a = self.magnitude_bits();
        let b = other.magnitude_bits();
        if a > INF_MAGNITUDE || b > INF_MAGNITUDE {
            return false;
        }
        let left: i64 = if self.is_negative() {
            -(a as i64)
        } else {
            a as i64
        };
        let right: i64 = if other.is_negative() {
            -(b as i64)
        } else {
            b as i64
        };
        left <= right
    }

    /// The number, moved into the range from `low` to `high`.
    pub fn clamp(self, low: F32, high: F32) -> (r: F32)
        requires
            at_most(low, high),
        ensures
            r == clamped(self, low, high),
    {
        if self.lt(low) {
            low
        } else if high.lt(self) {
            high
        } else {
            self
        }
    }

    /// The number nearest to `n`.
    pub fn from_u64(n: u64) -> (r: F32)
        ensures
            r == of_int(n as int),
    {
        proof {
            reveal(of_int);
        }
        proof {
            lemma2_to64();
            lemma2_to64_rest();
            lemma_pow2_strictly_increases(64, 127);
        }
        F32::pack(false, round_whole(n as u128, 149))
    }

    /// The number nearest to `i`.
    pub fn from_i32(i: i32) -> (r: F32)
        ensures
            r == of_int(i as int),
    {
        proof {
            reveal(of_int);
        }
        proof {
            lemma2_to64();
            lemma2_to64_rest();
            lemma_pow2_strictly_increases(64, 127);
        }
        if i < 0 {
            F32::pack(true, round_whole((-(i as i64)) as u128, 149))
        } else {
            F32::pack(false, round_whole(i as u128, 149))
        }
    }

    /// The number that is equal to `b`.
    pub fn from_u8(b: u8) -> (r: F32)
        ensures
            r == of_int(b as int),
    {
        F32::from_u64(b as u64)
    }

    /// The value without its fraction, cut off at the ends of the range of a byte.
    pub fn to_u8(self) -> (r: u8)
        ensures
            r == byte_of(self),
    {
        proof {
            reveal(byte_of);
        }
        let m = self.magnitude_bits();
        if m > INF_MAGNITUDE || self.is_negative() {
            return 0;
        }
        let w = whole_in(m, 149);
        if w > 255 {
            255
        } else {
            w as u8
        }
    }

    /// The ceiling, cut off at the ends of the range of a 32-bit integer.
    pub fn ceil_to_i32(self) -> (r: i32)
        ensures
            r == ceiling_i32(self),
    {
        proof {
            reveal(ceiling_i32);
        }
        let m = self.magnitude_bits();
        if m > INF_MAGNITUDE {
            return 0;
        }
        let w = whole_in(m, 149);
        let fraction = has_fraction(m);
        proof {
            lemma_pow2_pos(149);
            lemma_ceiling(grid(m as nat), pow2(149));
        }
        if self.is_negative() {
            if w > 0x8000_0000 {
                i32::MIN
            } else {
                (-(w as i64)) as i32
            }
        } else if w >= 0x7fff_ffff {
            i32::MAX
        } else if fraction {
            (w + 1) as i32
        } else {
            w as i32
        }
    }

    /// The floor, cut off at the ends of the range of a machine word.
    pub fn floor_to_usize(self) -> (r: usize)
        ensures
            r == floor_usize(self),
    {
        proof {
            reveal(floor_usize);
        }
        let m = self.magnitude_bits();
        if m > INF_MAGNITUDE || self.is_negative() {
            return 0;
        }
        let w = whole_in(m, 149);
        if w > usize::MAX as u64 {
            usize::MAX
        } else {
            w as usize
        }
    }

    /// The nearest whole number, halves away from zero, cut off at zero and at `limit`.
    pub fn round_to_count(self, limit: u32) -> (r: u32)
        ensures
            r == rounded_count(self, limit as nat),
    {
        proof {
            reveal(rounded_count);
        }
        let m = self.magnitude_bits();
        if m > INF_MAGNITUDE || self.is_negative() {
            return 0;
        }
        let halves = whole_in(m, 148);
        proof {
            vstd::arithmetic::power2::lemma_pow2_unfold(149);
            lemma_pow2_pos(148);
            lemma_halves(grid(m as nat), pow2(148));
        }
        if halves == u64::MAX {
            return limit;
        }
        let count: u64 = (halves + 1) / 2;
        if count > limit as u64 {
            limit
        } else {
            count as u32
        }
    }
}

/// Rounding a quotient up adds one to its whole part where there is a fraction.
proof fn lemma_ceiling(g: nat, unit: nat)
    requires
        unit > 0,
    ensures
        (g + unit - 1) / unit as int == if (g / unit) * unit == g {
            (g / unit) as int
        } else {
            (g / unit + 1) as int
        },
{
    let w = g as int / unit as int;
    let rest = g - w * unit;
    assert(0 <= rest < unit) by (nonlinear_arith)
        requires
            unit > 0,
            w == g as int / unit as int,
            rest == g - w * unit,
    ;
    if rest == 0 {
        assert((w * unit + (unit - 1)) / unit as int == w) by (nonlinear_arith)
            requires
                unit > 0,
        ;
    } else {
        assert(((w + 1) * unit + (rest - 1)) / unit as int == w + 1) by (nonlinear_arith)
            requires
                unit > 0,
                0 < rest < unit,
        ;
        assert((w + 1) * unit + (rest - 1) == g + unit - 1) by (nonlinear_arith)
            requires
                rest == g - w * unit,
        ;
    }
}

/// Rounding to whole numbers by way of whole halves.
proof fn lemma_halves(g: nat, half: nat)
    requires
        half > 0,
    ensures
        (2 * g + 2 * half) / (2 * (2 * half)) == (g / half + 1) / 2,
{
    vstd::arithmetic::div_mod::lemma_div_denominator((g + half) as int, half as int, 2);
    vstd::arithmetic::div_mod::lemma_div_plus_one(g as int, half as int);
    lemma_scaled_division(g + half, 2 * half, 2);
    assert((g + half) * 2 == 2 * g + 2 * half);
    assert((2 * half) * 2 == 2 * (2 * half));
    assert(half * 2 == 2 * half);
}

} // verus!
