//! That a kernel of one weight leaves an image as it is.

use crate::accuracy::{are_ordinary, law_blur_stays_in_range, ranges_near};
use crate::brightness::{exact_sum, lemma_exponent, lemma_gaussian_value, lemma_inverse};
use crate::float::arith::{product, quotient, sum};
use crate::float::convert::of_int;
use crate::float::cut::{
    floored, lemma_cut_keeps, lemma_floored_exact, lemma_floored_keeps_order,
    lemma_product_cut_keeps_order, product_cut,
};
use crate::float::numbers::{one, zero};
use crate::float::order::{
    is_plain, lemma_byte_round_trip, lemma_nearest, lemma_nearest_keeps_order, lemma_of_int_exact,
    lemma_product_keeps_order, lemma_product_of_ints, lemma_quotient_of_ints,
    lemma_zero_and_one,
};
use crate::float::repr::{
    exponent, grid, lemma_grid_increases, lemma_grid_split, lemma_parts_of, lemma_significand,
    significand, F32, INF_MAGNITUDE,
};
use crate::float::round::{
    is_nearest, lemma_mid_increases, lemma_nearest_exact, lemma_nearest_unique, nearest,
};
use crate::kernel::{
    are_exponentials, gaussian_exponent, gaussian_values, gaussian_weights, is_gaussian,
};
use crate::monotone::{lemma_byte_keeps_order, lemma_pass_keeps_order};
use crate::pixel::{channel, Pixel};
use crate::sampling::{gathered, normalized, reach, running_sum, tap};
use crate::separable::{across, blurred, column_samples, down, row_samples};
use vstd::arithmetic::power2::{
    lemma2_to64, lemma_pow2_adds, lemma_pow2_pos, lemma_pow2_strictly_increases,
    lemma_pow2_unfold, pow2,
};
use vstd::prelude::*;

verus! {

/// The numbers next to one, in steps of half the distance to the next greater one.
proof fn lemma_around_one()
    ensures
        pow2(149) == 0x100_0000 * pow2(125),
        pow2(125) > 0,
        grid(0x3f80_0000) == pow2(149),
        grid(0x3f80_0001) == pow2(149) + 2 * pow2(125),
        grid(0x3f7f_ffff) == pow2(149) - pow2(125),
{
    lemma2_to64();
    lemma_pow2_adds(24, 125);
    lemma_pow2_adds(1, 125);
    lemma_pow2_pos(125);
    lemma_grid_split(0x80_0000, 126);
    lemma_grid_split(0xff_ffff, 125);
    let step = pow2(126);
    assert((0x80_0000 + 1) * step == 0x80_0000 * step + step) by (nonlinear_arith);
}

/// What lies above the midpoint below a magnitude does not round below that magnitude.
proof fn lemma_nearest_at_least(n: nat, d: nat, m: nat)
    requires
        d > 0,
        0 < m <= INF_MAGNITUDE,
        2 * n > d * (grid((m - 1) as nat) + grid(m)),
    ensures
        nearest(n, d) >= m,
{
    lemma_nearest(n, d);
    let k = nearest(n, d);
    if k < m {
        lemma_mid_increases(k, (m - 1) as nat);
        let low = grid(k) + grid(k + 1);
        let high = grid((m - 1) as nat) + grid(m);
        assert(d * low <= d * high) by (nonlinear_arith)
            requires
                low <= high,
        ;
    }
}

/// Nothing is added by adding a plain number to zero.
proof fn lemma_sum_with_zero(a: F32)
    requires
        is_plain(a),
        a.is_finite(),
    ensures
        sum(zero(), a) == a,
{
    reveal(sum);
    let g = grid(a.magnitude());
    assert(grid(0) == 0);
    lemma_nearest_exact(a.magnitude(), 1);
    assert(g * 1 == g);
    if a.magnitude() > 0 {
        lemma_grid_increases(0, a.magnitude());
    }
}

/// Whether a weight is one, or the next smaller number: what a number times its inverse can
/// be.
pub open spec fn is_almost_one(w: F32) -> bool {
    w == one() || w == (F32 { bits: 0x3f7f_ffff })
}

/// A number times its inverse is one, or the next smaller number.
proof fn lemma_times_inverse(v: F32)
    requires
        is_plain(v),
        v.is_finite(),
        pow2(23) <= grid(v.magnitude()) <= pow2(272),
    ensures
        is_almost_one(product(v, quotient(one(), v))),
{
    lemma_inverse(v);
    lemma_around_one();
    let unit = pow2(149);
    let h = pow2(125);
    let a = grid(v.magnitude());
    let i = grid(quotient(one(), v).magnitude());
    assert(a * i == i * a) by (nonlinear_arith);
    let n = a * i;
    // No more than the midpoint above one, which rounds to one.
    assert(n * 1 <= (unit + h) * unit) by (nonlinear_arith)
        requires
            0x100_0000 * n <= (0x100_0000 + 1) * (unit * unit),
            unit == 0x100_0000 * h,
    ;
    assert(is_nearest(unit + h, 1, 0x3f80_0000));
    lemma_nearest_unique(unit + h, 1, 0x3f80_0000);
    lemma_nearest_keeps_order(n, unit, unit + h, 1);
    // No less than the number below one.
    assert((unit - h) * unit <= n * 1) by (nonlinear_arith)
        requires
            (0x100_0000 - 1) * (unit * unit) <= 0x100_0000 * n,
            unit == 0x100_0000 * h,
    ;
    lemma_nearest_exact(0x3f7f_ffff, 1);
    assert(grid(0x3f7f_ffff) * 1 == grid(0x3f7f_ffff));
    lemma_nearest_keeps_order((unit - h) as nat, 1, n, unit);
    reveal(product);
    lemma_parts_of(false, nearest(n, unit));
}

/// The number just below the whole number `x`, and how close it is.
proof fn lemma_below_whole(x: nat, m: nat)
    requires
        1 <= x <= 255,
        grid(m) == x * pow2(149),
    ensures
        m > 0,
        ({
            let unit = pow2(149);
            let h = pow2(125);
            let g = grid(m);
            let d = grid((m - 1) as nat);
            // The product with the number below one is not less than this,
            &&& g * (unit - h) >= d * unit
            // and dividing that again, either way, comes to `x` at least.
            &&& 2 * (d * unit) > (unit - h) * (d + g)
            &&& 2 * (d * (unit + 2 * h)) > unit * (d + g)
        }),
{
    let unit = pow2(149);
    let h = pow2(125);
    let g = grid(m);
    lemma_around_one();
    lemma2_to64();
    assert(g >= unit) by (nonlinear_arith)
        requires
            g == x * unit,
            x >= 1,
    ;
    assert(grid(0) == 0);
    lemma_significand(m);
    let e = exponent(m);
    let s = significand(m);
    let p = pow2(e);
    let d = grid((m - 1) as nat);
    lemma_pow2_pos(e);
    // A number of that size has a full significand.
    if e == 0 {
        lemma_pow2_strictly_increases(24, 149);
        assert(s * 1 == s);
    }
    assert(e > 0 && s >= 0x80_0000);
    if s > 0x80_0000 {
        assert(significand((m - 1) as nat) == s - 1 && exponent((m - 1) as nat) == e);
        lemma_significand((m - 1) as nat);
        assert(d == (s - 1) * p);
        assert(g == s * p);
        assert(g * (unit - h) >= d * unit) by (nonlinear_arith)
            requires
                g == s * p,
                d == (s - 1) * p,
                unit == 0x100_0000 * h,
                s < 0x100_0000,
                h > 0,
                p > 0,
        {
            assert(g * (unit - h) - d * unit == p * (unit - s * h));
            assert(s * h <= 0x100_0000 * h);
            assert(p * (unit - s * h) >= 0);
        }
        assert(2 * (d * unit) > (unit - h) * (d + g)) by (nonlinear_arith)
            requires
                g == s * p,
                d == (s - 1) * p,
                unit == 0x100_0000 * h,
                s > 0x80_0000,
                h > 0,
                p > 0,
        {
            assert(2 * (d * unit) - (unit - h) * (d + g) == p * ((2 * s - 1) * h - unit));
            assert((2 * s - 1) * h > 0x100_0000 * h);
            assert(p * ((2 * s - 1) * h - unit) > 0);
        }
        assert(2 * (d * (unit + 2 * h)) > unit * (d + g)) by (nonlinear_arith)
            requires
                g == s * p,
                d == (s - 1) * p,
                unit == 0x100_0000 * h,
                s > 0x80_0000,
                h > 0,
                p > 0,
        {
            assert(2 * (d * (unit + 2 * h)) - unit * (d + g) == p * (4 * (s - 1) * h - unit));
            assert(4 * (s - 1) * h > 0x100_0000 * h);
            assert(p * (4 * (s - 1) * h - unit) > 0);
        }
    } else {
        lemma_pow2_unfold(e);
        let half = pow2((e - 1) as nat);
        lemma_pow2_pos((e - 1) as nat);
        assert(m - 1 == (e - 1) * 0x80_0000 + 0xff_ffff);
        lemma_binade_end(m, e);
        assert(d == 0xff_ffff * half);
        assert(g == 0x100_0000 * half) by (nonlinear_arith)
            requires
                g == s * p,
                s == 0x80_0000,
                p == 2 * half,
        ;
        assert(g * (unit - h) >= d * unit) by (nonlinear_arith)
            requires
                g == 0x100_0000 * half,
                d == 0xff_ffff * half,
                unit == 0x100_0000 * h,
        ;
        assert(2 * (d * unit) > (unit - h) * (d + g)) by (nonlinear_arith)
            requires
                g == 0x100_0000 * half,
                d == 0xff_ffff * half,
                unit == 0x100_0000 * h,
                h > 0,
                half > 0,
        ;
        assert(2 * (d * (unit + 2 * h)) > unit * (d + g)) by (nonlinear_arith)
            requires
                g == 0x100_0000 * half,
                d == 0xff_ffff * half,
                unit == 0x100_0000 * h,
                h > 0,
                half > 0,
        ;
    }
}

/// The last number below a power of two.
proof fn lemma_binade_end(m: nat, e: nat)
    requires
        e > 0,
        m == e * 0x80_0000 + 0x80_0000,
    ensures
        grid((m - 1) as nat) == 0xff_ffff * pow2((e - 1) as nat),
{
    lemma_grid_split(0xff_ffff, (e - 1) as nat);
}

/// A sample multiplied by a weight, rounded or cut off.
spec fn share(a: F32, w: F32, lanes: bool) -> F32 {
    if lanes {
        product(a, w)
    } else {
        product_cut(a, w)
    }
}

/// One pass with one weight that is almost one, on a whole number, gives that number or a
/// greater one.
proof fn lemma_pass_at_least(x: nat, w: F32, lanes: bool)
    requires
        x <= 255,
        is_almost_one(w),
    ensures
        normalized(share(of_int(x as int), w, lanes), w, lanes).magnitude() >= of_int(
            x as int,
        ).magnitude(),
{
    let unit = pow2(149);
    let h = pow2(125);
    let start = of_int(x as int);
    let m = start.magnitude();
    lemma_around_one();
    lemma_zero_and_one();
    lemma_of_int_exact(x);
    if w == one() {
        lemma_product_of_ints(x, 1);
        lemma_cut_keeps(start);
        lemma_quotient_of_ints(x, 1);
        lemma_quotient_of_ints(1, 1);
    } else if x == 0 {
        assert(grid(0) == 0);
        assert(0 * unit == 0);
        if m > 0 {
            lemma_grid_increases(0, m);
        }
    } else {
        lemma_below_whole(x, m);
        let g = grid(m);
        let d = grid((m - 1) as nat);
        let low = unit - h;
        // The product.
        let n = g * low as nat;
        assert((g * low) * 1 <= g * unit) by (nonlinear_arith)
            requires
                low <= unit,
        ;
        assert(d * 1 == d && g * 1 == g);
        let k = if lanes {
            nearest(n, unit)
        } else {
            floored(n, unit)
        };
        if lanes {
            lemma_nearest_keeps_order(d, 1, n, unit);
            lemma_nearest_exact((m - 1) as nat, 1);
            lemma_nearest_keeps_order(n, unit, g, 1);
            lemma_nearest_exact(m, 1);
        } else {
            lemma_floored_keeps_order(d, 1, n, unit);
            lemma_floored_exact((m - 1) as nat, 1);
            lemma_floored_keeps_order(n, unit, g, 1);
            lemma_floored_exact(m, 1);
        }
        reveal(product);
        reveal(product_cut);
        lemma_parts_of(false, k);
        assert(share(start, w, lanes) == F32::of(false, k));
        if k > m - 1 {
            lemma_grid_increases((m - 1) as nat, k);
        }
        let s = grid(k);
        if lanes {
            // The inverse.
            assert(2 * (unit * unit) > low * (grid(0x3f80_0000) + grid(0x3f80_0001)))
                by (nonlinear_arith)
                requires
                    low == unit - h,
                    grid(0x3f80_0000) == unit,
                    grid(0x3f80_0001) == unit + 2 * h,
                    h > 0,
            ;
            lemma_nearest_at_least(unit * unit, low as nat, 0x3f80_0001);
            let inverse = quotient(one(), w);
            let l = nearest(unit * unit, low as nat);
            lemma_nearest(unit * unit, low as nat);
            assert(inverse == F32::of(false, l)) by {
                reveal(quotient);
            }
            lemma_parts_of(false, l);
            if l > 0x3f80_0001 {
                lemma_grid_increases(0x3f80_0001, l);
            }
            let i = grid(l);
            assert(s * i >= d * (unit + 2 * h)) by (nonlinear_arith)
                requires
                    s >= d,
                    i >= unit + 2 * h,
            ;
            lemma_nearest_at_least(s * i, unit, m);
            lemma_nearest(s * i, unit);
            lemma_parts_of(false, nearest(s * i, unit));
        } else {
            assert(s * unit >= d * unit) by (nonlinear_arith)
                requires
                    s >= d,
            ;
            lemma_nearest_at_least(s * unit, low as nat, m);
            lemma_nearest(s * unit, low as nat);
            reveal(quotient);
            lemma_parts_of(false, nearest(s * unit, low as nat));
        }
    }
}

/// A kernel of one weight that is almost one is ordinary.
proof fn lemma_single_weight_is_ordinary(w: F32)
    requires
        is_almost_one(w),
    ensures
        are_ordinary(seq![w]),
{
    lemma_around_one();
    lemma2_to64();
    lemma_pow2_adds(1, 148);
    lemma_pow2_adds(1, 149);
    assert(exact_sum(seq![w], 0) == 0);
    assert(exact_sum(seq![w], 1) == grid(w.magnitude()));
}

/// One pass with one weight, written out.
proof fn lemma_single_pass(a: F32, w: F32, lanes: bool)
    requires
        is_plain(a),
        a.is_finite(),
        is_almost_one(w),
    ensures
        normalized(
            gathered(seq![a], seq![w], 1, lanes),
            running_sum(seq![w], 1),
            lanes,
        ) == normalized(share(a, w, lanes), w, lanes),
{
    lemma_product_keeps_order(a, w, a, one());
    lemma_product_cut_keeps_order(a, w, a, one());
    lemma_cut_keeps(a);
    lemma_cut_keeps(product_cut(a, w));
    lemma_around_one();
    assert(product(a, one()) == a) by {
        reveal(product);
        lemma_nearest_exact(a.magnitude(), pow2(149));
    }
    assert(gathered(seq![a], seq![w], 0, lanes) == zero());
    assert(running_sum(seq![w], 0) == zero());
    lemma_sum_with_zero(product(a, w));
    lemma_sum_with_zero(w);
}

/// With one weight that is almost one, no channel changes.
proof fn lemma_single_weight_keeps_channel(
    image: Seq<Seq<Pixel>>,
    w: F32,
    blur_alpha: bool,
    lanes: bool,
    y: int,
    x: int,
    c: int,
)
    requires
        is_almost_one(w),
        0 <= y < image.len(),
        0 <= x < image[0].len(),
        0 <= c < 4,
    ensures
        channel(blurred(image, seq![w], blur_alpha, lanes)[y][x], c) == channel(image[y][x], c),
{
    let weights = seq![w];
    let v = channel(image[y][x], c);
    lemma_single_weight_is_ordinary(w);
    assert(ranges_near(image, c, v, v, reach(weights), y, x));
    law_blur_stays_in_range(image, weights, blur_alpha, lanes, v, v, y, x, c);
    let start = of_int(v as int);
    lemma_byte_round_trip(v);
    if c < 3 || blur_alpha {
        lemma_of_int_exact(v as nat);
        lemma2_to64();
        lemma_pow2_adds(8, 149);
        lemma_pow2_adds(9, 149);
        lemma_pow2_adds(1, 157);
        lemma_pow2_pos(149);
        let unit = pow2(149);
        assert(v as nat * unit <= 256 * unit) by (nonlinear_arith)
            requires
                v <= 255,
        ;
        lemma_pass_at_least(v as nat, w, lanes);
        assert(tap(x, 0, image[0].len() as int) == x && tap(y, 0, image.len() as int) == y);
        assert(row_samples(image, weights, y, x, c) =~= seq![start]);
        lemma_single_pass(start, w, lanes);
        lemma_pass_keeps_order(seq![start], seq![start], weights, lanes, 256 * unit);
        let first = across(image, weights, blur_alpha, lanes, y, x, c);
        assert(column_samples(image, weights, blur_alpha, lanes, y, x, c) =~= seq![first]);
        lemma_pass_keeps_order(seq![start], seq![first], weights, lanes, 512 * unit);
        lemma_byte_keeps_order(start, down(image, weights, blur_alpha, lanes, y, x, c));
    }
}

/// A kernel of radius zero leaves every pixel as it is, whatever sigma of ordinary size it is
/// made with, as long as the exponential of its one exponent is one.
pub proof fn law_radius_zero_keeps_pixels(
    image: Seq<Seq<Pixel>>,
    sigma: F32,
    exponentials: Seq<F32>,
    blur_alpha: bool,
    lanes: bool,
    y: int,
    x: int,
)
    requires
        is_plain(sigma),
        sigma.is_finite(),
        pow2(109) <= grid(sigma.magnitude()) <= pow2(189),
        exponentials == seq![one()],
        0 <= y < image.len(),
        0 <= x < image[0].len(),
    ensures
        blurred(image, gaussian_weights(sigma, exponentials), blur_alpha, lanes)[y][x]
            == image[y][x],
{
    lemma_around_one();
    lemma_gaussian_value(sigma, one());
    let values = gaussian_values(sigma, exponentials);
    let v = values[0];
    lemma_pow2_strictly_increases(23, 24);
    lemma_pow2_strictly_increases(192, 272);
    lemma_times_inverse(v);
    assert(running_sum(values, 0) == zero());
    lemma_sum_with_zero(v);
    let w = product(v, quotient(one(), v));
    assert(gaussian_weights(sigma, exponentials) =~= seq![w]);
    lemma_single_weight_keeps_channel(image, w, blur_alpha, lanes, y, x, 0);
    lemma_single_weight_keeps_channel(image, w, blur_alpha, lanes, y, x, 1);
    lemma_single_weight_keeps_channel(image, w, blur_alpha, lanes, y, x, 2);
    lemma_single_weight_keeps_channel(image, w, blur_alpha, lanes, y, x, 3);
}

/// A blur with radius zero gives back an image whose rows are all as long as the first: with
/// or without lanes, alpha blurred or not, for any sigma of ordinary size and any exponential
/// function that is one at zero.
pub proof fn law_radius_zero_is_identity<E: Fn(F32) -> F32>(
    exp: E,
    image: Seq<Seq<Pixel>>,
    sigma: F32,
    weights: Seq<F32>,
    blur_alpha: bool,
    lanes: bool,
)
    requires
        is_plain(sigma),
        sigma.is_finite(),
        pow2(109) <= grid(sigma.magnitude()) <= pow2(189),
        forall|z: F32, r: F32|
            z.is_zero() && #[trigger] call_ensures(exp, (z,), r) ==> r == one(),
        is_gaussian(exp, 0, sigma, weights),
        forall|y: int| 0 <= y < image.len() ==> (#[trigger] image[y]).len() == image[0].len(),
    ensures
        blurred(image, weights, blur_alpha, lanes) == image,
{
    let exponentials = choose|exponentials: Seq<F32>| #[trigger]
        are_exponentials(exp, 0, sigma, exponentials) && weights == gaussian_weights(
            sigma,
            exponentials,
        );
    lemma_exponent(0, sigma, 0);
    assert(call_ensures(exp, (gaussian_exponent(0, sigma, 0),), exponentials[0]));
    assert(exponentials =~= seq![one()]);
    let result = blurred(image, weights, blur_alpha, lanes);
    assert forall|y: int| 0 <= y < image.len() implies (#[trigger] result[y]) == image[y] by {
        assert forall|x: int| 0 <= x < image[0].len() implies (#[trigger] result[y][x])
            == image[y][x] by {
            law_radius_zero_keeps_pixels(image, sigma, exponentials, blur_alpha, lanes, y, x);
        }
        assert(result[y] =~= image[y]);
    }
    assert(result =~= image);
}

} // verus!
