//! What pixels are as numbers, and what a blend of two of them is.

use crate::brightness::lemma_sum_error;
use crate::float::arith::{difference, negated, product, sum};
use crate::float::convert::{byte_of, clamped, of_int};
use crate::float::error::{lemma_small_rounding_error, lemma_whole_rounding_error};
use crate::float::lanes::F32x4;
use crate::float::laws::law_byte_is_whole_part;
use crate::float::numbers::{one, zero};
use crate::float::order::{is_plain, lemma_of_int_exact, lemma_root_of_one};
use crate::float::repr::{grid, lemma_grid_increases, lemma_parts_of, F32};
use crate::float::round::nearest;
use crate::laws::{law_blend_ends, law_pixel_round_trip};
use crate::pixel::{blended, blended_channel, channel, Pixel};
use vstd::arithmetic::power2::{
    lemma2_to64, lemma_pow2_adds, lemma_pow2_pos, lemma_pow2_strictly_increases, pow2,
};
use vstd::prelude::*;

verus! {

/// What is left of one, with its rounding error.
proof fn lemma_rest(a: F32)
    requires
        is_plain(a),
        a.is_finite(),
        grid(a.magnitude()) <= pow2(149),
    ensures
        ({
            let rest = difference(one(), a);
            let exact = pow2(149) - grid(a.magnitude());
            &&& is_plain(rest)
            &&& rest.is_finite()
            &&& 0x100_0000 * grid(rest.magnitude()) <= 0x100_0000 * exact + exact
            &&& 0x100_0000 * exact <= 0x100_0000 * grid(rest.magnitude()) + exact
            &&& grid(rest.magnitude()) <= 2 * pow2(149)
        }),
{
    lemma_root_of_one();
    let g = grid(a.magnitude());
    let exact = (pow2(149) - g) as nat;
    lemma_parts_of(true, a.magnitude());
    assert(negated(a).scaled() == -(g as int));
    lemma_pow2_strictly_increases(149, 276);
    lemma_whole_rounding_error(exact);
    let m = nearest(exact, 1);
    lemma_parts_of(false, m);
    reveal(sum);
    assert(grid(0) == 0);
    let d = grid(m);
    assert(0x100_0000 * d <= 0x100_0000 * exact + exact && 0x100_0000 * exact <= 0x100_0000 * d
        + exact) by (nonlinear_arith)
        requires
            (0x100_0000 - 1) * exact <= 0x100_0000 * d <= (0x100_0000 + 1) * exact,
    ;
}

/// A byte times a number of at most two, with its rounding error.
proof fn lemma_part(v: u8, a: F32)
    requires
        is_plain(a),
        a.is_finite(),
        grid(a.magnitude()) <= 2 * pow2(149),
    ensures
        ({
            let part = product(of_int(v as int), a);
            let exact = v * grid(a.magnitude());
            &&& is_plain(part)
            &&& part.is_finite()
            &&& 0x100_0000 * grid(part.magnitude()) <= 0x100_0000 * exact + exact + 0x80_0000
            &&& 0x100_0000 * exact <= 0x100_0000 * grid(part.magnitude()) + exact + 0x80_0000
        }),
{
    let unit = pow2(149);
    let g = grid(a.magnitude());
    lemma_of_int_exact(v as nat);
    lemma_pow2_pos(149);
    lemma2_to64();
    lemma_pow2_adds(9, 149);
    lemma_pow2_strictly_increases(158, 276);
    let n = (v as nat * unit) * g;
    let e = v * g;
    assert(n == e * unit && e <= 512 * unit) by (nonlinear_arith)
        requires
            n == (v as nat * unit) * g,
            e == v * g,
            g <= 2 * unit,
            v <= 255,
    ;
    assert(n < unit * pow2(276)) by (nonlinear_arith)
        requires
            n == e * unit,
            e < pow2(276),
            unit > 0,
    ;
    lemma_small_rounding_error(n, unit);
    let m = nearest(n, unit);
    assert(product(of_int(v as int), a) == F32::of(false, m)) by {
        reveal(product);
    }
    lemma_parts_of(false, m);
    let p = grid(m);
    assert(0x100_0000 * p <= 0x100_0000 * e + e + 0x80_0000 && 0x100_0000 * e <= 0x100_0000 * p + e
        + 0x80_0000) by (nonlinear_arith)
        requires
            0x100_0000 * (p * unit) <= 0x100_0000 * (e * unit) + e * unit + 0x80_0000 * unit,
            0x100_0000 * (e * unit) <= 0x100_0000 * (p * unit) + e * unit + 0x80_0000 * unit,
            unit > 0,
    {
        assert((0x100_0000 * p) * unit <= (0x100_0000 * e + e + 0x80_0000) * unit);
        assert((0x100_0000 * e) * unit <= (0x100_0000 * p + e + 0x80_0000) * unit);
    }
}

/// A blend with a share from zero to one is, in every channel, the mean of the two pixels with
/// that share of the second and the rest of the first, cut off to a whole number, but for an error
/// of `2^-14`. Below zero nothing but the first counts, and above one nothing but the second.
pub proof fn law_blend_is_mean(first: Pixel, second: Pixel, alpha: F32, c: int)
    requires
        alpha.is_finite(),
        0 <= c < 4,
    ensures
        ({
            let unit = pow2(149) as int;
            let share = if alpha.scaled() < 0 {
                0
            } else if alpha.scaled() > unit {
                unit
            } else {
                alpha.scaled()
            };
            let mean = channel(first, c) * (unit - share) + channel(second, c) * share;
            let r = channel(blended(first, second, alpha), c);
            &&& 0x4000 * (r * unit) <= 0x4000 * mean + unit
            &&& 0x4000 * mean <= 0x4000 * ((r + 1) * unit) + unit
        }),
{
    let unit = pow2(149) as int;
    lemma_root_of_one();
    lemma_pow2_pos(149);
    let a = clamped(alpha, zero(), one());
    assert(grid(0) == 0);
    let m = alpha.magnitude();
    if m > 0 {
        lemma_grid_increases(0, m);
    }
    if m > one().magnitude() {
        lemma_grid_increases(one().magnitude(), m);
    } else if m < one().magnitude() {
        lemma_grid_increases(m, one().magnitude());
    }
    let (f, s) = (channel(first, c), channel(second, c));
    let g = grid(a.magnitude()) as int;
    let r = channel(blended(first, second, alpha), c);
    assert(r == blended_channel(f, s, a));
    if a.negative() {
        law_blend_ends(first, second, alpha);
        assert(alpha.is_zero() && r == f);
        assert(f * (unit - 0) + s * 0 == f * unit && (f + 1) * unit == f * unit + unit)
            by (nonlinear_arith);
    } else {
        lemma_blend(f, s, a);
    }
}

/// A blend with a share from zero to one.
proof fn lemma_blend(f: u8, s: u8, a: F32)
    requires
        is_plain(a),
        a.is_finite(),
        grid(a.magnitude()) <= pow2(149),
    ensures
        ({
            let unit = pow2(149) as int;
            let share = grid(a.magnitude()) as int;
            let mean = f * (unit - share) + s * share;
            let r = blended_channel(f, s, a);
            &&& 0x4000 * (r * unit) <= 0x4000 * mean + unit
            &&& 0x4000 * mean <= 0x4000 * ((r + 1) * unit) + unit
        }),
{
    let unit = pow2(149) as int;
    lemma_pow2_pos(149);
    lemma2_to64();
    lemma_pow2_adds(30, 119);
    lemma_pow2_pos(119);
    lemma_pow2_adds(10, 149);
    lemma_pow2_strictly_increases(159, 276);
    lemma_rest(a);
    let rest = difference(one(), a);
    let d = grid(rest.magnitude()) as int;
    let g = grid(a.magnitude()) as int;
    lemma_part(f, rest);
    lemma_part(s, a);
    let p = grid(product(of_int(f as int), rest).magnitude()) as int;
    let q = grid(product(of_int(s as int), a).magnitude()) as int;
    let left = f * (unit - g);
    let right = s * g;
    let fd = f * d;
    assert(0x100_0000 * fd <= 0x100_0000 * left + left && 0x100_0000 * left <= 0x100_0000 * fd
        + left) by (nonlinear_arith)
        requires
            0x100_0000 * d <= 0x100_0000 * (unit - g) + (unit - g),
            0x100_0000 * (unit - g) <= 0x100_0000 * d + (unit - g),
            fd == f * d,
            left == f * (unit - g),
            f >= 0,
    {
        assert(f * (0x100_0000 * d) <= f * (0x100_0000 * (unit - g) + (unit - g)));
        assert(f * (0x100_0000 * (unit - g)) <= f * (0x100_0000 * d + (unit - g)));
    }
    assert(0 <= left && 0 <= right && left + right <= 255 * unit) by (nonlinear_arith)
        requires
            left == f * (unit - g),
            right == s * g,
            0 <= g <= unit,
            0 <= f <= 255,
            0 <= s <= 255,
    ;
    assert(p + q <= 512 * unit);
    lemma_sum_error(product(of_int(f as int), rest), product(of_int(s as int), a));
    let total = sum(product(of_int(f as int), rest), product(of_int(s as int), a));
    let t = grid(total.magnitude()) as int;
    let pq = p + q;
    assert(0x100_0000 * t <= 0x100_0000 * pq + pq && 0x100_0000 * pq <= 0x100_0000 * t + pq)
        by (nonlinear_arith)
        requires
            (0x100_0000 - 1) * pq <= 0x100_0000 * t <= (0x100_0000 + 1) * pq,
    ;
    law_byte_is_whole_part(total);
    let r = blended_channel(f, s, a);
    let mean = left + right;
    assert(0x4000 * t <= 0x4000 * mean + unit && 0x4000 * mean <= 0x4000 * t + unit);
    assert((r + 1) * unit == r * unit + unit) by (nonlinear_arith);
    assert(255 * unit + unit == 256 * unit);
    if t >= 256 * unit {
        assert(r == 255);
    }
}

/// A pixel as numbers has its red, green, blue and alpha in this order, as exact values, and the
/// numbers give the pixel back; as lanes too. A pixel without a given alpha has the largest.
pub proof fn law_pixel_as_numbers(
    pixel: Pixel,
    r: u8,
    g: u8,
    b: u8,
    a: u8,
    opaque: Pixel,
    numbers: [F32; 4],
    lanes: F32x4,
    from_numbers: Pixel,
    from_lanes: Pixel,
)
    requires
        call_ensures(Pixel::new, (r, g, b, a), pixel),
        call_ensures(Pixel::to_f32_array, (&pixel,), numbers),
        call_ensures(Pixel::to_simd, (&pixel,), lanes),
        call_ensures(Pixel::from_f32_array, (numbers,), from_numbers),
        call_ensures(Pixel::from_simd, (lanes,), from_lanes),
        call_ensures(Pixel::rgb, (r, g, b), opaque),
    ensures
        numbers@[0].scaled() == r * pow2(149),
        numbers@[1].scaled() == g * pow2(149),
        numbers@[2].scaled() == b * pow2(149),
        numbers@[3].scaled() == a * pow2(149),
        forall|c: int| 0 <= c < 4 ==> (#[trigger] lanes@[c]) == numbers@[c],
        from_numbers == pixel,
        from_lanes == pixel,
        opaque == (Pixel { a: 255, ..pixel }),
{
    lemma_of_int_exact(pixel.r as nat);
    lemma_of_int_exact(pixel.g as nat);
    lemma_of_int_exact(pixel.b as nat);
    lemma_of_int_exact(pixel.a as nat);
    assert(numbers@[0] == of_int(channel(pixel, 0) as int));
    assert(numbers@[1] == of_int(channel(pixel, 1) as int));
    assert(numbers@[2] == of_int(channel(pixel, 2) as int));
    assert(numbers@[3] == of_int(channel(pixel, 3) as int));
    assert forall|c: int| 0 <= c < 4 implies channel(from_numbers, c) == byte_of(
        #[trigger] numbers@[c],
    ) by {}
    assert forall|c: int| 0 <= c < 4 implies channel(from_lanes, c) == byte_of(
        #[trigger] lanes@[c],
    ) by {}
    law_pixel_round_trip(pixel, numbers@, from_numbers);
    law_pixel_round_trip(pixel, lanes@, from_lanes);
}

/// The blend of two pixels, as it is computed, is their mean; see [`law_blend_is_mean`].
pub proof fn law_computed_blend_is_mean(
    first: Pixel,
    second: Pixel,
    alpha: F32,
    result: Pixel,
    c: int,
)
    requires
        call_ensures(Pixel::blend, (&first, &second, alpha), result),
        !alpha.negative(),
        alpha.is_finite(),
        grid(alpha.magnitude()) <= pow2(149),
        0 <= c < 4,
    ensures
        ({
            let unit = pow2(149) as int;
            let share = grid(alpha.magnitude()) as int;
            let mean = channel(first, c) * (unit - share) + channel(second, c) * share;
            let r = channel(result, c);
            &&& 0x4000 * (r * unit) <= 0x4000 * mean + unit
            &&& 0x4000 * mean <= 0x4000 * ((r + 1) * unit) + unit
        }),
{
    law_blend_is_mean(first, second, alpha, c);
}

} // verus!
