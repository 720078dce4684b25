//! What the operations on numbers give, by the exact values.
//!
//! Values are whole multiples of the smallest positive number, two to the power of minus 149, so
//! one is `2^149` of them.

use super::arith::{difference, negated, product, quotient, root, sum};
use super::convert::{
    at_most, byte_of, ceiling_i32, clamped, floor_usize, law_less_is_by_value, less, of_int,
    rounded_count,
};
use super::cut::{floored, lemma_floored, product_cut, sum_cut};
use super::order::{lemma_nearest, lemma_nearest_root};
use super::repr::{
    grid, lemma_grid_increases, lemma_of_parts, lemma_parts_of, F32, INF_MAGNITUDE,
};
use super::round::{nearest, nearest_root};
use vstd::arithmetic::power2::{
    lemma2_to64, lemma_pow2_adds, lemma_pow2_pos, lemma_pow2_strictly_increases, pow2,
};
use vstd::prelude::*;

verus! {

/// How far apart two whole numbers are.
pub open spec fn gap(a: int, b: int) -> int {
    if a <= b {
        b - a
    } else {
        a - b
    }
}

/// No magnitude is closer to a quotient than the one that it rounds to.
proof fn lemma_none_closer(n: nat, d: nat, k: nat)
    requires
        d > 0,
        nearest(n, d) < INF_MAGNITUDE,
        k < INF_MAGNITUDE,
    ensures
        gap((d * grid(nearest(n, d))) as int, n as int) <= gap((d * grid(k)) as int, n as int),
        gap((d * grid(nearest(n, d))) as int, n as int) == gap((d * grid(k)) as int, n as int) && k
            != nearest(n, d) ==> nearest(n, d) % 2 == 0,
{
    lemma_nearest(n, d);
    let m = nearest(n, d);
    if k > m {
        if k > m + 1 {
            lemma_grid_increases(m + 1, k);
        }
        lemma_grid_increases(m, m + 1);
        let (a, b, c) = (grid(m), grid(m + 1), grid(k));
        assert(d * (a + b) <= d * a + d * c && d * a < d * c) by (nonlinear_arith)
            requires
                a < b <= c,
                d > 0,
        ;
    } else if k < m {
        if k + 1 < m {
            lemma_grid_increases(k, (m - 1) as nat);
        }
        lemma_grid_increases((m - 1) as nat, m);
        let (a, b, c) = (grid((m - 1) as nat), grid(m), grid(k));
        assert(d * (a + b) >= d * c + d * b && d * c < d * b) by (nonlinear_arith)
            requires
                c <= a < b,
                d > 0,
        ;
    }
}

/// No finite number is closer to the exact sum of two than the computed one, and where another is
/// as close, the pattern of the computed one is even.
pub proof fn law_sum_is_nearest(a: F32, b: F32, other: F32)
    requires
        a.is_finite(),
        b.is_finite(),
        sum(a, b).is_finite(),
        other.is_finite(),
    ensures
        gap(sum(a, b).scaled(), a.scaled() + b.scaled()) <= gap(
            other.scaled(),
            a.scaled() + b.scaled(),
        ),
        gap(sum(a, b).scaled(), a.scaled() + b.scaled()) == gap(
            other.scaled(),
            a.scaled() + b.scaled(),
        ) && sum(a, b).scaled() != other.scaled() ==> sum(a, b).bits % 2 == 0,
{
    reveal(sum);
    let exact = a.scaled() + b.scaled();
    let n = gap(exact, 0) as nat;
    let m = nearest(n, 1);
    lemma_nearest(n, 1);
    lemma_parts_of(exact < 0, m);
    lemma_parts_of(a.negative() && b.negative(), 0);
    assert(grid(0) == 0);
    if exact != 0 {
        lemma_none_closer(n, 1, other.magnitude());
        lemma_none_closer(n, 1, 0);
        assert(1 * grid(m) == grid(m) && 1 * grid(other.magnitude()) == grid(other.magnitude()));
        assert(1 * grid(0) == 0);
    }
}

/// Negating a number turns its value around, and twice gives it back; no finite number is closer to
/// the exact difference of two than the computed one.
pub proof fn law_difference_is_nearest(a: F32, b: F32, other: F32)
    requires
        a.is_finite(),
        b.is_finite(),
        difference(a, b).is_finite(),
        other.is_finite(),
    ensures
        negated(b).scaled() == -b.scaled(),
        negated(negated(b)) == b,
        gap(difference(a, b).scaled(), a.scaled() - b.scaled()) <= gap(
            other.scaled(),
            a.scaled() - b.scaled(),
        ),
{
    lemma_parts_of(!b.negative(), b.magnitude());
    lemma_of_parts(b);
    law_sum_is_nearest(a, negated(b), other);
}

/// No finite number is closer to the exact product of two than the computed one, and where another
/// is as close, the pattern of the computed one is even.
pub proof fn law_product_is_nearest(a: F32, b: F32, other: F32)
    requires
        a.is_finite(),
        b.is_finite(),
        product(a, b).is_finite(),
        other.is_finite(),
    ensures
        gap(product(a, b).scaled() * pow2(149), a.scaled() * b.scaled()) <= gap(
            other.scaled() * pow2(149),
            a.scaled() * b.scaled(),
        ),
        gap(product(a, b).scaled() * pow2(149), a.scaled() * b.scaled()) == gap(
            other.scaled() * pow2(149),
            a.scaled() * b.scaled(),
        ) && product(a, b).scaled() != other.scaled() ==> product(a, b).bits % 2 == 0,
{
    reveal(product);
    let unit = pow2(149);
    lemma_pow2_pos(149);
    let (x, y) = (grid(a.magnitude()), grid(b.magnitude()));
    let n = x * y;
    let m = nearest(n, unit);
    lemma_nearest(n, unit);
    let negative = a.negative() != b.negative();
    lemma_parts_of(negative, m);
    lemma_none_closer(n, unit, other.magnitude());
    lemma_none_closer(n, unit, 0);
    assert(grid(0) == 0);
    assert(m % 2 == F32::of(negative, m).bits % 2);
    lemma_signed_gap(
        grid(m) as int,
        grid(other.magnitude()) as int,
        unit as int,
        n as int,
        negative,
        other.negative(),
        m % 2 == 0,
    );
    assert(a.scaled() * b.scaled() == if negative {
        -(n as int)
    } else {
        n as int
    }) by (nonlinear_arith)
        requires
            n == x * y,
            a.negative() ==> a.scaled() == -x,
            !a.negative() ==> a.scaled() == x,
            b.negative() ==> b.scaled() == -y,
            !b.negative() ==> b.scaled() == y,
            negative == (a.negative() != b.negative()),
    ;
}

/// Nearness of magnitudes carries over to numbers with signs.
proof fn lemma_signed_gap(
    g: int,
    h: int,
    d: int,
    n: int,
    negative: bool,
    other: bool,
    even: bool,
)
    requires
        g >= 0,
        h >= 0,
        d > 0,
        n >= 0,
        gap(d * g, n) <= gap(d * h, n),
        gap(d * g, n) <= gap(d * 0, n),
        gap(d * g, n) == gap(d * h, n) && g != h ==> even,
        gap(d * g, n) == gap(d * 0, n) && g != 0 ==> even,
    ensures
        ({
            let value = if negative {
                -g
            } else {
                g
            };
            let exact = if negative {
                -n
            } else {
                n
            };
            let other_value = if other {
                -h
            } else {
                h
            };
            &&& gap(value * d, exact) <= gap(other_value * d, exact)
            &&& gap(value * d, exact) == gap(other_value * d, exact) && value != other_value
                ==> even
        }),
{
    assert(-g * d == -(d * g) && g * d == d * g && -h * d == -(d * h) && h * d == d * h)
        by (nonlinear_arith);
    assert(d * h >= 0 && d * 0 == 0) by (nonlinear_arith)
        requires
            d > 0,
            h >= 0,
    ;
}

/// No finite number, multiplied by the divisor, is closer to the dividend than the computed
/// quotient, and where another is as close, the pattern of the computed one is even.
pub proof fn law_quotient_is_nearest(a: F32, b: F32, other: F32)
    requires
        a.is_finite(),
        b.is_finite(),
        !b.is_zero(),
        quotient(a, b).is_finite(),
        other.is_finite(),
    ensures
        gap(quotient(a, b).scaled() * b.scaled(), a.scaled() * pow2(149)) <= gap(
            other.scaled() * b.scaled(),
            a.scaled() * pow2(149),
        ),
        gap(quotient(a, b).scaled() * b.scaled(), a.scaled() * pow2(149)) == gap(
            other.scaled() * b.scaled(),
            a.scaled() * pow2(149),
        ) && quotient(a, b).scaled() != other.scaled() ==> quotient(a, b).bits % 2 == 0,
{
    reveal(quotient);
    let unit = pow2(149);
    let d = grid(b.magnitude());
    assert(grid(0) == 0);
    lemma_grid_increases(0, b.magnitude());
    let x = grid(a.magnitude());
    let n = x * unit;
    let m = nearest(n, d);
    lemma_nearest(n, d);
    let negative = a.negative() != b.negative();
    lemma_parts_of(negative, m);
    lemma_none_closer(n, d, other.magnitude());
    lemma_none_closer(n, d, 0);
    let g = grid(m) as int;
    let h = grid(other.magnitude()) as int;
    // The sign of the divisor goes to the other side.
    let flipped = other.negative() != b.negative();
    lemma_signed_gap(g, h, d as int, n as int, a.negative(), flipped, m % 2 == 0);
    let q = quotient(a, b).scaled();
    let (bs, os) = (b.scaled(), other.scaled());
    let di = d as int;
    assert(q * bs == if a.negative() {
        -g * di
    } else {
        g * di
    }) by (nonlinear_arith)
        requires
            q == (if negative {
                -g
            } else {
                g
            }),
            bs == (if b.negative() {
                -di
            } else {
                di
            }),
            negative == (a.negative() != b.negative()),
    ;
    assert(os * bs == if other.negative() != b.negative() {
        -h * di
    } else {
        h * di
    }) by (nonlinear_arith)
        requires
            os == (if other.negative() {
                -h
            } else {
                h
            }),
            bs == (if b.negative() {
                -di
            } else {
                di
            }),
    ;
    assert(-(x as int) * unit == -(n as int)) by (nonlinear_arith)
        requires
            n == x * unit,
    ;
}

/// The square root lies on the same side of the middle between the computed root and any other
/// number as the computed root.
pub proof fn law_root_is_nearest(a: F32, other: F32)
    requires
        a.is_finite(),
        !a.negative(),
        !a.is_zero(),
        other.is_finite(),
        !other.negative(),
    ensures
        root(a).is_finite() ==> {
            let twice_middle = root(a).scaled() + other.scaled();
            let four_squares = 4 * (a.scaled() * pow2(149));
            &&& root(a).scaled() >= 0
            &&& root(a).scaled() < other.scaled() ==> four_squares <= twice_middle * twice_middle
            &&& root(a).scaled() > other.scaled() ==> four_squares >= twice_middle * twice_middle
        },
{
    reveal(root);
    let n = grid(a.magnitude()) * pow2(149);
    let m = nearest_root(n);
    lemma_nearest_root(n);
    lemma_parts_of(false, m);
    let k = other.magnitude();
    if m < INF_MAGNITUDE {
        let g = grid(m);
        let h = grid(k);
        if k > m {
            lemma_grid_increases(m, k);
            if k > m + 1 {
                lemma_grid_increases(m + 1, k);
            }
            let mid = g + grid(m + 1);
            assert(mid * mid <= (g + h) * (g + h)) by (nonlinear_arith)
                requires
                    0 <= mid <= g + h,
            ;
        } else if k < m {
            lemma_grid_increases(k, m);
            if k + 1 < m {
                lemma_grid_increases(k, (m - 1) as nat);
            }
            let mid = grid((m - 1) as nat) + g;
            assert(mid * mid >= (g + h) * (g + h)) by (nonlinear_arith)
                requires
                    0 <= g + h <= mid,
            ;
        }
    }
}

/// No finite number is closer to a whole number than the one that is made of it.
pub proof fn law_whole_number_is_nearest(i: int, other: F32)
    requires
        of_int(i).is_finite(),
        other.is_finite(),
    ensures
        gap(of_int(i).scaled(), i * pow2(149)) <= gap(other.scaled(), i * pow2(149)),
{
    reveal(of_int);
    let unit = pow2(149);
    lemma_pow2_pos(149);
    let n = gap(i, 0) as nat * unit;
    let m = nearest(n, 1);
    lemma_nearest(n, 1);
    lemma_parts_of(i < 0, m);
    lemma_none_closer(n, 1, other.magnitude());
    lemma_none_closer(n, 1, 0);
    assert(grid(0) == 0);
    assert(1 * grid(m) == grid(m) && 1 * grid(other.magnitude()) == grid(other.magnitude()));
    assert(1 * grid(0) == 0);
    assert(i * unit == if i < 0 {
        -(n as int)
    } else {
        n as int
    }) by (nonlinear_arith)
        requires
            n == (if i < 0 {
                -i * unit
            } else {
                i * unit
            }),
    ;
}

/// A cut off sum is not farther from zero than the exact one, on the same side, and no finite
/// number lies between them.
pub proof fn law_cut_sum_is_next_below(a: F32, b: F32, other: F32)
    requires
        a.is_finite(),
        b.is_finite(),
        sum_cut(a, b).is_finite(),
        other.is_finite(),
    ensures
        ({
            let exact = a.scaled() + b.scaled();
            let got = sum_cut(a, b).scaled();
            &&& exact >= 0 ==> 0 <= got <= exact
            &&& exact <= 0 ==> exact <= got <= 0
            &&& 0 <= other.scaled() <= exact ==> other.scaled() <= got
            &&& exact <= other.scaled() <= 0 ==> got <= other.scaled()
        }),
{
    reveal(sum_cut);
    let exact = a.scaled() + b.scaled();
    let n = gap(exact, 0) as nat;
    lemma_floored(n, 1);
    let m = floored(n, 1);
    lemma_parts_of(exact < 0, m);
    lemma_parts_of(a.negative() && b.negative(), 0);
    assert(grid(0) == 0);
    let k = other.magnitude();
    assert(1 * grid(m) == grid(m) && 1 * grid(m + 1) == grid(m + 1));
    if exact != 0 {
        if k > m + 1 {
            lemma_grid_increases(m + 1, k);
        } else if k < m {
            lemma_grid_increases(k, m);
        }
    }
}

/// A cut off product is not farther from zero than the exact one, on the same side, and no finite
/// number lies between them; for numbers without a sign.
pub proof fn law_cut_product_is_next_below(a: F32, b: F32, other: F32)
    requires
        a.is_finite(),
        b.is_finite(),
        !a.negative(),
        !b.negative(),
        product_cut(a, b).is_finite(),
        other.is_finite(),
    ensures
        ({
            let exact = a.scaled() * b.scaled();
            let got = product_cut(a, b).scaled();
            &&& 0 <= got
            &&& got * pow2(149) <= exact
            &&& other.scaled() * pow2(149) <= exact ==> other.scaled() <= got
        }),
{
    reveal(product_cut);
    let unit = pow2(149);
    lemma_pow2_pos(149);
    let n = grid(a.magnitude()) * grid(b.magnitude());
    lemma_floored(n, unit);
    let m = floored(n, unit);
    lemma_parts_of(false, m);
    let k = other.magnitude();
    let (g, h) = (grid(m), grid(m + 1));
    assert(unit * g == g * unit && unit * h == h * unit) by (nonlinear_arith);
    if !other.negative() && k > m {
        if k > m + 1 {
            lemma_grid_increases(m + 1, k);
        }
        let o = grid(k);
        assert(h * unit <= o * unit) by (nonlinear_arith)
            requires
                h <= o,
        ;
    } else if !other.negative() && k < m {
        lemma_grid_increases(k, m);
    }
}

/// A number without its fraction, as a byte: the greatest whole number that is not above it, from
/// zero to 255.
pub proof fn law_byte_is_whole_part(a: F32)
    requires
        a.is_finite(),
    ensures
        a.scaled() <= 0 ==> byte_of(a) == 0,
        0 <= a.scaled() < 256 * pow2(149) ==> byte_of(a) * pow2(149) <= a.scaled() < (byte_of(a)
            + 1) * pow2(149),
        a.scaled() >= 255 * pow2(149) ==> byte_of(a) == 255,
{
    reveal(byte_of);
    lemma_whole_part(grid(a.magnitude()), 255);
    lemma_whole_part(grid(a.magnitude()), 256);
    assert(grid(0) == 0);
    if a.negative() && a.magnitude() > 0 {
        lemma_grid_increases(0, a.magnitude());
    }
}

/// The whole part of a value, and how it compares with a bound.
proof fn lemma_whole_part(g: nat, bound: nat)
    ensures
        ({
            let unit = pow2(149);
            let whole = g as int / unit as int;
            &&& unit > 0
            &&& whole >= 0
            &&& whole * unit <= g < (whole + 1) * unit
            &&& g < bound * unit <==> whole < bound
            &&& g as int / unit as int == g / unit
        }),
{
    lemma_pow2_pos(149);
    let unit = pow2(149) as int;
    let whole = g as int / unit;
    vstd::arithmetic::div_mod::lemma_fundamental_div_mod(g as int, unit);
    assert(whole >= 0 && whole * unit <= g < (whole + 1) * unit && (g < bound * unit <==> whole
        < bound)) by (nonlinear_arith)
        requires
            g == unit * whole + g as int % unit,
            0 <= g as int % unit,
            (g as int % unit) < unit,
            g >= 0,
            unit > 0,
    ;
}

/// The ceiling of a number is the least whole number that is not below it, where that fits into a
/// 32-bit integer.
pub proof fn law_ceiling_is_least(a: F32)
    requires
        a.is_finite(),
        -0x8000_0000 * pow2(149) <= a.scaled() <= 0x7fff_ffff * pow2(149),
    ensures
        (ceiling_i32(a) - 1) * pow2(149) < a.scaled() <= ceiling_i32(a) * pow2(149),
{
    reveal(ceiling_i32);
    let unit = pow2(149) as int;
    let g = grid(a.magnitude()) as int;
    lemma_pow2_pos(149);
    if a.negative() {
        lemma_whole_part(g as nat, 0x8000_0001);
        let whole = g / unit;
        assert((-whole - 1) * unit < -g <= -whole * unit) by (nonlinear_arith)
            requires
                whole * unit <= g < (whole + 1) * unit,
        ;
        assert(0x8000_0001 * unit == 0x8000_0000 * unit + unit);
    } else {
        let top = g + unit - 1;
        let c = top / unit;
        vstd::arithmetic::div_mod::lemma_fundamental_div_mod(top, unit);
        assert((c - 1) * unit < g <= c * unit && 0 <= c <= 0x7fff_ffff) by (nonlinear_arith)
            requires
                top == unit * c + top % unit,
                0 <= top % unit < unit,
                top == g + unit - 1,
                0 <= g <= 0x7fff_ffff * unit,
        ;
    }
}

/// The floor of a number that is not negative is the greatest whole number that is not above it,
/// where that fits into a machine word.
pub proof fn law_floor_is_greatest(a: F32)
    requires
        a.is_finite(),
        !a.negative(),
        a.scaled() < (usize::MAX + 1) * pow2(149),
    ensures
        floor_usize(a) * pow2(149) <= a.scaled() < (floor_usize(a) + 1) * pow2(149),
{
    reveal(floor_usize);
    lemma_whole_part(grid(a.magnitude()), (usize::MAX + 1) as nat);
}

/// A number rounds to the nearest whole number, halves away from zero, within the limit.
pub proof fn law_count_is_nearest(a: F32, limit: nat)
    requires
        a.is_finite(),
        !a.negative(),
    ensures
        rounded_count(a, limit) <= limit,
        rounded_count(a, limit) < limit ==> 2 * a.scaled() < (2 * rounded_count(a, limit) + 1)
            * pow2(149),
        rounded_count(a, limit) > 0 ==> 2 * a.scaled() >= (2 * rounded_count(a, limit) - 1) * pow2(
            149,
        ),
{
    reveal(rounded_count);
    let unit = pow2(149) as int;
    lemma_pow2_pos(149);
    let g = grid(a.magnitude()) as int;
    let top = 2 * g + unit;
    let c = top / (2 * unit);
    vstd::arithmetic::div_mod::lemma_fundamental_div_mod(top, 2 * unit);
    let r = rounded_count(a, limit) as int;
    assert(2 * g < (2 * c + 1) * unit && 2 * g >= (2 * c - 1) * unit && c >= 0)
        by (nonlinear_arith)
        requires
            top == (2 * unit) * c + top % (2 * unit),
            0 <= top % (2 * unit) < 2 * unit,
            top == 2 * g + unit,
            g >= 0,
            unit > 0,
    ;
    assert((2 * r - 1) * unit <= (2 * c - 1) * unit) by (nonlinear_arith)
        requires
            r <= c,
            unit > 0,
    ;
}

/// Numbers are at most others by their values, and nothing compares with what is no number.
pub proof fn law_at_most_is_by_value(a: F32, b: F32)
    ensures
        a.is_finite() && b.is_finite() ==> (at_most(a, b) <==> a.scaled() <= b.scaled()),
        a.is_nan() || b.is_nan() ==> !at_most(a, b) && !less(a, b),
        !a.is_nan() && b.is_infinite() && !b.negative() ==> at_most(a, b),
{
    if a.is_finite() && b.is_finite() {
        law_less_is_by_value(b, a);
    }
}

/// A number that is moved into a range lies in it, and no value there is closer to it.
pub proof fn law_clamp_is_nearest(a: F32, low: F32, high: F32, other: F32)
    requires
        a.is_finite(),
        low.is_finite(),
        high.is_finite(),
        other.is_finite(),
        low.scaled() <= other.scaled() <= high.scaled(),
    ensures
        low.scaled() <= clamped(a, low, high).scaled() <= high.scaled(),
        gap(clamped(a, low, high).scaled(), a.scaled()) <= gap(other.scaled(), a.scaled()),
{
    law_less_is_by_value(a, low);
    law_less_is_by_value(high, a);
}

/// What is no number stays none, and nothing adds to or takes from infinity.
pub proof fn law_special_numbers(a: F32, b: F32)
    ensures
        a.is_nan() || b.is_nan() ==> sum(a, b).is_nan() && product(a, b).is_nan() && quotient(
            a,
            b,
        ).is_nan(),
        a.is_infinite() && b.is_finite() ==> sum(a, b) == a && sum(b, a) == a && quotient(
            b,
            a,
        ).is_zero(),
        a.is_infinite() && b.is_finite() && !b.is_zero() ==> product(a, b).is_infinite()
            && product(a, b).negative() == (a.negative() != b.negative()),
        a.is_infinite() && b.is_zero() ==> product(a, b).is_nan(),
        a.is_zero() && b.is_zero() ==> quotient(a, b).is_nan(),
        a.is_nan() || a.negative() && !a.is_zero() ==> root(a).is_nan(),
        a.is_finite() && b.is_finite() && a.scaled() + b.scaled() == 0 ==> sum(a, b).is_zero()
            && sum(a, b).negative() == (a.negative() && b.negative()),
        a.is_finite() && b.is_finite() ==> !product(a, b).is_nan() && product(a, b).negative() == (
        a.negative() != b.negative()),
        a.is_finite() && b.is_finite() && !b.is_zero() ==> !quotient(a, b).is_nan() && quotient(
            a,
            b,
        ).negative() == (a.negative() != b.negative()),
        a.is_finite() && !a.is_zero() && b.is_zero() ==> quotient(a, b).is_infinite(),
        a.is_nan() ==> byte_of(a) == 0 && floor_usize(a) == 0 && ceiling_i32(a) == 0,
        a.is_infinite() && !a.negative() ==> byte_of(a) == 255,
        a.is_infinite() && a.negative() ==> byte_of(a) == 0,
{
    reveal(byte_of);
    reveal(floor_usize);
    reveal(ceiling_i32);
    assert(grid(0) == 0);
    lemma_parts_of(a.negative() && b.negative(), 0);
    if a.is_finite() && b.is_finite() {
        let (x, y) = (grid(a.magnitude()), grid(b.magnitude()));
        lemma_pow2_pos(149);
        lemma_nearest(x * y, pow2(149));
        lemma_parts_of(a.negative() != b.negative(), nearest(x * y, pow2(149)));
        if b.magnitude() > 0 {
            lemma_grid_increases(0, b.magnitude());
            lemma_nearest(x * pow2(149), y);
            lemma_parts_of(a.negative() != b.negative(), nearest(x * pow2(149), y));
        }
    }
    if a.is_infinite() {
        let inf = INF_MAGNITUDE as nat;
        assert(inf / 0x80_0000 == 255 && inf % 0x80_0000 == 0);
        lemma_pow2_adds(8, 149);
        lemma2_to64();
        lemma_pow2_strictly_increases(157, 254);
        let large = pow2(254) as int;
        assert(grid(inf) == 0x80_0000 * large);
        lemma_whole_part(grid(inf), 256);
    }
    reveal(sum);
    reveal(product);
    reveal(quotient);
    reveal(root);
    lemma_parts_of(a.negative() != b.negative(), INF_MAGNITUDE as nat);
    lemma_parts_of(a.negative() != b.negative(), 0);
    lemma_parts_of(b.negative() != a.negative(), 0);
}

} // verus!
