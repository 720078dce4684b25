//! What holds of the blurs as a whole.

use crate::blur::{is_blank, GaussianBlur};
use crate::float::arith::{difference, product, quotient, sum};
use crate::float::convert::{byte_of, clamped, less, of_int};
use crate::float::cut::{lemma_floored_exact, product_cut, sum_cut};
use crate::float::error::{lemma_small_rounding_error, lemma_whole_rounding_error};
use crate::float::numbers::{one, zero};
use crate::float::order::{
    lemma_byte_round_trip, lemma_nearest, lemma_of_int_exact, lemma_product_of_ints,
    lemma_sum_of_ints, lemma_zero_and_one,
};
use crate::float::repr::{grid, lemma_grid_increases, lemma_parts_of, F32};
use crate::float::round::{lemma_nearest_exact, nearest};
use crate::kernel::{
    are_exponentials, gaussian_exponent, gaussian_weights, is_gaussian, valid_radius,
};
use crate::pixel::{blended, blended_channel, channel, Pixel};
use crate::sampling::{gathered, normalized, reach, running_sum, tap};
use crate::separable::{blurred, column_samples, down, row_samples};
use crate::window::{window_samples, windowed_image};
use vstd::arithmetic::power2::{
    lemma2_to64, lemma_pow2_adds, lemma_pow2_pos, lemma_pow2_strictly_increases, pow2,
};
use vstd::prelude::*;

verus! {

/// A blurred image has the size of the image.
pub proof fn law_blur_keeps_size(
    image: Seq<Seq<Pixel>>,
    weights: Seq<F32>,
    blur_alpha: bool,
    lanes: bool,
)
    ensures
        blurred(image, weights, blur_alpha, lanes).len() == image.len(),
        forall|y: int|
            0 <= y < image.len() ==> (#[trigger] blurred(
                image,
                weights,
                blur_alpha,
                lanes,
            )[y]).len() == image[0].len(),
{
}

/// Where alpha is not blurred, every pixel keeps its alpha.
pub proof fn law_alpha_is_kept(
    image: Seq<Seq<Pixel>>,
    weights: Seq<F32>,
    lanes: bool,
    half: int,
    y: int,
    x: int,
)
    requires
        0 <= y < image.len(),
        0 <= x < image[0].len(),
    ensures
        blurred(image, weights, false, lanes)[y][x].a == image[y][x].a,
        windowed_image(image, weights, half, false)[y][x].a == image[y][x].a,
{
    lemma_byte_round_trip(image[y][x].a);
}

/// A pixel that is made an array of numbers, or lanes, and a pixel again is the same.
pub proof fn law_pixel_round_trip(pixel: Pixel, numbers: Seq<F32>, back: Pixel)
    requires
        forall|c: int| 0 <= c < 4 ==> (#[trigger] numbers[c]) == of_int(channel(pixel, c) as int),
        forall|c: int| 0 <= c < 4 ==> channel(back, c) == byte_of(#[trigger] numbers[c]),
    ensures
        back == pixel,
{
    lemma_byte_round_trip(pixel.r);
    lemma_byte_round_trip(pixel.g);
    lemma_byte_round_trip(pixel.b);
    lemma_byte_round_trip(pixel.a);
    assert(numbers[0] == of_int(channel(pixel, 0) as int));
    assert(numbers[1] == of_int(channel(pixel, 1) as int));
    assert(numbers[2] == of_int(channel(pixel, 2) as int));
    assert(numbers[3] == of_int(channel(pixel, 3) as int));
    assert(channel(back, 0) == byte_of(numbers[0]));
    assert(channel(back, 1) == byte_of(numbers[1]));
    assert(channel(back, 2) == byte_of(numbers[2]));
    assert(channel(back, 3) == byte_of(numbers[3]));
}

/// Whether two images of one size have the same pixels within `radius` rows and columns of
/// a place, where places outside count as the nearest ones inside.
pub open spec fn agree_near(
    a: Seq<Seq<Pixel>>,
    b: Seq<Seq<Pixel>>,
    radius: int,
    y: int,
    x: int,
) -> bool {
    &&& a.len() == b.len()
    &&& a[0].len() == b[0].len()
    &&& forall|j: int, i: int|
        -radius <= j <= radius && -radius <= i <= radius ==> (#[trigger] a[tap(
            y,
            j,
            a.len() as int,
        )][tap(x, i, a[0].len() as int)]) == b[tap(y, j, a.len() as int)][tap(
            x,
            i,
            a[0].len() as int,
        )]
}

/// A blurred pixel depends on the pixels within the radius of the kernel only.
pub proof fn law_blur_is_local(
    a: Seq<Seq<Pixel>>,
    b: Seq<Seq<Pixel>>,
    weights: Seq<F32>,
    blur_alpha: bool,
    lanes: bool,
    y: int,
    x: int,
)
    requires
        0 <= y < a.len(),
        0 <= x < a[0].len(),
        agree_near(a, b, reach(weights), y, x),
    ensures
        blurred(a, weights, blur_alpha, lanes)[y][x]
            == blurred(b, weights, blur_alpha, lanes)[y][x],
{
    let r = reach(weights);
    let height = a.len() as int;
    let width = a[0].len() as int;
    assert(tap(y, 0, height) == y);
    assert(tap(x, 0, width) == x);
    assert(a[tap(y, 0, height)][tap(x, 0, width)] == b[tap(y, 0, height)][tap(x, 0, width)]);
    assert forall|c: int| 0 <= c < 4 implies down(a, weights, blur_alpha, lanes, y, x, c) == down(
        b,
        weights,
        blur_alpha,
        lanes,
        y,
        x,
        c,
    ) by {
        let left = column_samples(a, weights, blur_alpha, lanes, y, x, c);
        let right = column_samples(b, weights, blur_alpha, lanes, y, x, c);
        assert forall|j: int| 0 <= j < weights.len() implies left[j] == right[j] by {
            let row = tap(y, j - r, height);
            let from_a = row_samples(a, weights, row, x, c);
            let from_b = row_samples(b, weights, row, x, c);
            assert forall|i: int| 0 <= i < weights.len() implies from_a[i] == from_b[i] by {
                assert(a[tap(y, j - r, height)][tap(x, i - r, width)] == b[tap(
                    y,
                    j - r,
                    height,
                )][tap(x, i - r, width)]);
            }
            assert(from_a =~= from_b);
            assert(a[tap(y, j - r, height)][tap(x, 0, width)] == b[tap(y, j - r, height)][tap(
                x,
                0,
                width,
            )]);
        }
        assert(left =~= right);
    }
}

/// Whether a number is zero, of either sign, or not a number.
spec fn is_void(a: F32) -> bool {
    a.is_zero() || a.is_nan()
}

proof fn lemma_void_product(a: F32, b: F32)
    requires
        is_void(a),
    ensures
        is_void(product(a, b)),
        is_void(product_cut(a, b)),
{
    reveal(product);
    reveal(product_cut);
    lemma_pow2_pos(149);
    assert(grid(0) == 0);
    if !a.is_nan() && !b.is_nan() && b.is_finite() {
        assert(grid(a.magnitude()) * grid(b.magnitude()) == 0) by (nonlinear_arith)
            requires
                grid(a.magnitude()) == 0,
        ;
        lemma_nearest_exact(0, pow2(149));
        lemma_floored_exact(0, pow2(149));
        assert(0 * pow2(149) == 0);
        lemma_parts_of(a.negative() != b.negative(), 0);
    }
}

proof fn lemma_void_sum(a: F32, b: F32)
    requires
        is_void(a) && is_void(b),
    ensures
        is_void(sum(a, b)),
        is_void(sum_cut(a, b)),
{
    reveal(sum);
    reveal(sum_cut);
    assert(grid(0) == 0);
    lemma_parts_of(a.negative() && b.negative(), 0);
}

proof fn lemma_void_quotient(a: F32, b: F32)
    requires
        is_void(a),
    ensures
        is_void(quotient(a, b)),
{
    reveal(quotient);
    assert(grid(0) == 0);
    lemma_parts_of(a.negative() != b.negative(), 0);
    if !a.is_nan() && !b.is_nan() && b.is_finite() && !b.is_zero() {
        crate::float::repr::lemma_grid_increases(0, b.magnitude());
        lemma_nearest_exact(0, grid(b.magnitude()));
        assert(0 * grid(b.magnitude()) == 0);
        assert(0 * pow2(149) == 0);
    }
}

proof fn lemma_void_gathered(samples: Seq<F32>, weights: Seq<F32>, n: nat, lanes: bool)
    requires
        n <= samples.len(),
        n <= weights.len(),
        forall|j: int| 0 <= j < n ==> is_void(#[trigger] samples[j]),
    ensures
        is_void(gathered(samples, weights, n, lanes)),
    decreases n,
{
    if n > 0 {
        let (sample, weight) = (samples[n - 1], weights[n - 1]);
        lemma_void_gathered(samples, weights, (n - 1) as nat, lanes);
        lemma_void_product(sample, weight);
        let before = gathered(samples, weights, (n - 1) as nat, lanes);
        if lanes {
            lemma_void_sum(before, product(sample, weight));
        } else {
            lemma_void_sum(before, product_cut(sample, weight));
        }
    }
}

proof fn lemma_void_normalized(a: F32, total: F32, lanes: bool)
    requires
        is_void(a),
    ensures
        is_void(normalized(a, total, lanes)),
{
    lemma_void_product(a, quotient(one(), total));
    lemma_void_quotient(a, total);
}

/// A channel that is zero in the whole image stays zero, whatever the weights are.
pub proof fn law_absent_colour_stays_absent(
    image: Seq<Seq<Pixel>>,
    weights: Seq<F32>,
    blur_alpha: bool,
    lanes: bool,
    y: int,
    x: int,
    c: int,
)
    requires
        0 <= y < image.len(),
        0 <= x < image[0].len(),
        0 <= c < 4,
        forall|j: int, i: int|
            0 <= j < image.len() && 0 <= i < image[0].len() ==> channel(
                #[trigger] image[j][i],
                c,
            ) == 0,
    ensures
        channel(blurred(image, weights, blur_alpha, lanes)[y][x], c) == 0,
{
    reveal(byte_of);
    lemma_zero_and_one();
    let height = image.len() as int;
    let width = image[0].len() as int;
    let samples = column_samples(image, weights, blur_alpha, lanes, y, x, c);
    let total = running_sum(weights, weights.len());
    assert forall|j: int| 0 <= j < samples.len() implies is_void(#[trigger] samples[j]) by {
        let row = tap(y, j - reach(weights), height);
        let inner = row_samples(image, weights, row, x, c);
        assert(channel(image[row][x], c) == 0);
        assert forall|i: int| 0 <= i < inner.len() implies is_void(#[trigger] inner[i]) by {
            assert(channel(image[row][tap(x, i - reach(weights), width)], c) == 0);
        }
        lemma_void_gathered(inner, weights, weights.len(), lanes);
        lemma_void_normalized(gathered(inner, weights, weights.len(), lanes), total, lanes);
    }
    lemma_void_gathered(samples, weights, weights.len(), lanes);
    lemma_void_normalized(gathered(samples, weights, weights.len(), lanes), total, lanes);
    assert(channel(image[y][x], c) == 0);
    let value = down(image, weights, blur_alpha, lanes, y, x, c);
    assert(is_void(value));
    assert(byte_of(value) == 0) by {
        lemma_pow2_pos(149);
        assert(grid(0) == 0);
        assert(0nat / pow2(149) == 0) by (nonlinear_arith)
            requires
                pow2(149) > 0,
        ;
    }
}

/// Whether a function gives one result for each argument.
pub open spec fn is_deterministic<E: Fn(F32) -> F32>(exp: E) -> bool {
    forall|x: F32, a: F32, b: F32|
        #[trigger] call_ensures(exp, (x,), a) && #[trigger] call_ensures(exp, (x,), b) ==> a == b
}

/// The exponents of a kernel are the same on both sides of its middle.
proof fn lemma_exponent_is_symmetric(radius: int, sigma: F32, i: int)
    requires
        valid_radius(radius),
        0 <= i <= 2 * radius,
    ensures
        gaussian_exponent(radius, sigma, i) == gaussian_exponent(radius, sigma, 2 * radius - i),
{
    reveal(of_int);
    reveal(product);
    let d = if i < radius {
        (radius - i) as nat
    } else {
        (i - radius) as nat
    };
    lemma_nearest(d * pow2(149), 1);
    let m = nearest(d * pow2(149), 1);
    lemma_parts_of(false, m);
    lemma_parts_of(true, m);
    if d == 0 {
        assert(i == 2 * radius - i);
    }
}

/// The weights of a kernel are determined by its radius and sigma, and are the same on both
/// sides of its middle, where the exponential of a number is always the same.
pub proof fn law_kernel_is_symmetric<E: Fn(F32) -> F32>(
    exp: E,
    radius: int,
    sigma: F32,
    weights: Seq<F32>,
)
    requires
        is_deterministic(exp),
        valid_radius(radius),
        is_gaussian(exp, radius, sigma, weights),
    ensures
        weights.len() == 2 * radius + 1,
        forall|i: int| 0 <= i <= 2 * radius ==> (#[trigger] weights[i]) == weights[2 * radius - i],
{
    let exponentials = choose|exponentials: Seq<F32>| #[trigger]
        are_exponentials(exp, radius, sigma, exponentials) && weights == gaussian_weights(
            sigma,
            exponentials,
        );
    assert forall|i: int| 0 <= i <= 2 * radius implies (#[trigger] weights[i]) == weights[2 * radius
        - i] by {
        lemma_exponent_is_symmetric(radius, sigma, i);
        let k = 2 * radius - i;
        assert(call_ensures(exp, (gaussian_exponent(radius, sigma, i),), exponentials[i]));
        assert(call_ensures(exp, (gaussian_exponent(radius, sigma, k),), exponentials[k]));
    }
}

/// The weights of a kernel are determined by its radius and sigma, where the exponential of
/// a number is always the same.
pub proof fn law_kernel_is_unique<E: Fn(F32) -> F32>(
    exp: E,
    radius: int,
    sigma: F32,
    a: Seq<F32>,
    b: Seq<F32>,
)
    requires
        is_deterministic(exp),
        is_gaussian(exp, radius, sigma, a),
        is_gaussian(exp, radius, sigma, b),
    ensures
        a == b,
{
    let left = choose|exponentials: Seq<F32>| #[trigger]
        are_exponentials(exp, radius, sigma, exponentials) && a == gaussian_weights(
            sigma,
            exponentials,
        );
    let right = choose|exponentials: Seq<F32>| #[trigger]
        are_exponentials(exp, radius, sigma, exponentials) && b == gaussian_weights(
            sigma,
            exponentials,
        );
    assert forall|i: int| 0 <= i < left.len() implies left[i] == right[i] by {
        assert(call_ensures(exp, (gaussian_exponent(radius, sigma, i),), left[i]));
        assert(call_ensures(exp, (gaussian_exponent(radius, sigma, i),), right[i]));
    }
    assert(left =~= right);
}

/// The simple blur and the scalar blur of a processor with the same settings give the same
/// image, where the exponential of a number is always the same.
pub proof fn law_simple_blur_agrees<E: Fn(F32) -> F32>(
    exp: E,
    blur: GaussianBlur,
    image: Seq<Seq<Pixel>>,
    simple: Seq<Seq<Pixel>>,
)
    requires
        is_deterministic(exp),
        is_gaussian(exp, blur.spec_radius(), blur.spec_sigma(), blur.weights()),
        !blur.uses_lanes(),
        !is_blank(image),
        exists|weights: Seq<F32>| #[trigger]
            is_gaussian(exp, blur.spec_radius(), blur.spec_sigma(), weights) && simple == blurred(
                image,
                weights,
                blur.blurs_alpha(),
                false,
            ),
    ensures
        simple == blur.output(image),
{
    let weights = choose|weights: Seq<F32>| #[trigger]
        is_gaussian(exp, blur.spec_radius(), blur.spec_sigma(), weights) && simple == blurred(
            image,
            weights,
            blur.blurs_alpha(),
            false,
        );
    law_kernel_is_unique(exp, blur.spec_radius(), blur.spec_sigma(), weights, blur.weights());
}

/// A blend with a share of zero, of either sign, is the first pixel, with a share of one the
/// second; smaller and larger shares count as these.
pub proof fn law_blend_ends(first: Pixel, second: Pixel, alpha: F32)
    ensures
        blended(first, second, zero()) == first,
        blended(first, second, one()) == second,
        alpha.is_zero() ==> blended(first, second, alpha) == first,
        less(alpha, zero()) ==> blended(first, second, alpha) == first,
        less(one(), alpha) ==> blended(first, second, alpha) == second,
{
    lemma_blend_channel(first.r, second.r);
    lemma_blend_channel(first.g, second.g);
    lemma_blend_channel(first.b, second.b);
    lemma_blend_channel(first.a, second.a);
    assert(clamped(zero(), zero(), one()) == zero());
    if alpha.is_zero() && alpha.negative() {
        lemma_blend_minus_zero(first.r, second.r, alpha);
        lemma_blend_minus_zero(first.g, second.g, alpha);
        lemma_blend_minus_zero(first.b, second.b, alpha);
        lemma_blend_minus_zero(first.a, second.a, alpha);
        assert(clamped(alpha, zero(), one()) == alpha);
    }
    assert(clamped(one(), zero(), one()) == one());
    assert(less(alpha, zero()) ==> clamped(alpha, zero(), one()) == zero());
    assert(less(one(), alpha) ==> clamped(alpha, zero(), one()) == one());
}

/// A share of minus zero.
proof fn lemma_blend_minus_zero(first: u8, second: u8, a: F32)
    requires
        a.is_zero(),
        a.negative(),
    ensures
        blended_channel(first, second, a) == first,
{
    let f = first as nat;
    let unit = pow2(149);
    lemma_zero_and_one();
    lemma_pow2_pos(149);
    lemma_of_int_exact(1);
    lemma_of_int_exact(f);
    lemma_of_int_exact(second as nat);
    assert(grid(0) == 0);
    lemma_parts_of(false, 0);
    lemma_parts_of(true, 0);
    assert(difference(one(), a) == one()) by {
        reveal(sum);
        lemma_nearest_exact(one().magnitude(), 1);
        assert(grid(one().magnitude()) * 1 == grid(one().magnitude()));
    }
    lemma_product_of_ints(f, 1);
    let left = of_int(f as int);
    let none = product(of_int(second as int), a);
    assert(none.is_zero() && none.negative()) by {
        reveal(product);
        lemma_nearest_exact(0, unit);
        assert(0 * unit == 0 && grid(of_int(second as int).magnitude()) * 0 == 0);
    }
    assert(sum(left, none) == left) by {
        reveal(sum);
        lemma_nearest_exact(left.magnitude(), 1);
        assert(grid(left.magnitude()) * 1 == grid(left.magnitude()));
        if left.magnitude() > 0 {
            lemma_grid_increases(0, left.magnitude());
        }
    }
    lemma_byte_round_trip(first);
}

proof fn lemma_blend_channel(first: u8, second: u8)
    ensures
        blended_channel(first, second, zero()) == first,
        blended_channel(first, second, one()) == second,
{
    let a = first as nat;
    let b = second as nat;
    lemma_zero_and_one();
    assert(difference(one(), zero()) == one()) by {
        reveal(sum);
        assert(grid(0) == 0);
        lemma_parts_of(true, 0);
        lemma_of_int_exact(1);
        lemma_pow2_pos(149);
        lemma_nearest_exact(one().magnitude(), 1);
        assert(grid(one().magnitude()) * 1 == grid(one().magnitude()));
    }
    assert(difference(one(), one()) == zero()) by {
        reveal(sum);
        lemma_parts_of(true, one().magnitude());
    }
    lemma_product_of_ints(a, 1);
    lemma_product_of_ints(b, 1);
    lemma_product_of_ints(a, 0);
    lemma_product_of_ints(b, 0);
    lemma_sum_of_ints(a, 0);
    lemma_sum_of_ints(0, b);
    lemma_byte_round_trip(first);
    lemma_byte_round_trip(second);
}

/// A product of a byte and a number of at most two, with its rounding error.
proof fn lemma_share(v: u8, a: F32)
    requires
        a.is_finite(),
        grid(a.magnitude()) <= 2 * pow2(149),
    ensures
        ({
            let p = product(of_int(v as int), a);
            let exact = v * grid(a.magnitude());
            &&& p.is_finite()
            &&& p.negative() == a.negative()
            &&& 0x100_0000 * grid(p.magnitude()) <= 0x100_0000 * exact + exact + 0x80_0000
            &&& 0x100_0000 * exact <= 0x100_0000 * grid(p.magnitude()) + exact + 0x80_0000
            &&& a.is_zero() ==> p.is_zero()
        }),
{
    let unit = pow2(149);
    let g = grid(a.magnitude());
    let exact = v * g;
    let n = ((v as nat) * unit) * g;
    lemma_of_int_exact(v as nat);
    lemma_pow2_pos(149);
    lemma2_to64();
    lemma_pow2_adds(9, 149);
    lemma_pow2_strictly_increases(158, 276);
    assert(n == exact * unit) by (nonlinear_arith)
        requires
            n == (v * unit) * g,
            exact == v * g,
    ;
    assert(exact <= 512 * unit) by (nonlinear_arith)
        requires
            exact == v * g,
            v <= 255,
            g <= 2 * unit,
    ;
    assert(exact * unit < unit * pow2(276)) by (nonlinear_arith)
        requires
            exact < pow2(276),
            unit > 0,
    ;
    lemma_small_rounding_error(n, unit);
    let m = nearest(n, unit);
    let k = grid(m);
    assert(product(of_int(v as int), a) == F32::of(a.negative(), m)) by {
        reveal(product);
    }
    lemma_parts_of(a.negative(), m);
    assert(0x100_0000 * k <= 0x100_0000 * exact + exact + 0x80_0000) by (nonlinear_arith)
        requires
            0x100_0000 * (k * unit) <= 0x100_0000 * (exact * unit) + exact * unit + 0x80_0000
                * unit,
            unit > 0,
    ;
    assert(0x100_0000 * exact <= 0x100_0000 * k + exact + 0x80_0000) by (nonlinear_arith)
        requires
            0x100_0000 * (exact * unit) <= 0x100_0000 * (k * unit) + exact * unit + 0x80_0000
                * unit,
            unit > 0,
    ;
    if a.is_zero() {
        assert(grid(0) == 0);
        lemma_nearest_exact(0, unit);
        assert(n == 0) by (nonlinear_arith)
            requires
                n == (v * unit) * g,
                g == 0,
        ;
        assert(0 * unit == 0);
    }
}

/// A mean of two numbers lies between them.
proof fn lemma_mean_between(f: int, g: int, low: int, high: int, a: int, unit: int)
    requires
        low <= f <= high,
        low <= g <= high,
        0 <= a <= unit,
    ensures
        low * unit <= f * (unit - a) + g * a <= high * unit,
{
    assert(low * (unit - a) <= f * (unit - a) <= high * (unit - a)) by (nonlinear_arith)
        requires
            low <= f <= high,
            a <= unit,
    ;
    assert(low * a <= g * a <= high * a) by (nonlinear_arith)
        requires
            low <= g <= high,
            0 <= a,
    ;
    assert(low * (unit - a) + low * a == low * unit) by (nonlinear_arith);
    assert(high * (unit - a) + high * a == high * unit) by (nonlinear_arith);
}

proof fn lemma_blend_between(first: u8, second: u8, low: u8, high: u8, a: F32)
    requires
        low <= first <= high,
        low <= second <= high,
        a.is_finite(),
        grid(a.magnitude()) <= pow2(149),
        a.negative() ==> a.is_zero(),
    ensures
        low - 1 <= blended_channel(first, second, a) <= high,
{
    let unit = pow2(149);
    let g = grid(a.magnitude());
    lemma_zero_and_one();
    lemma_of_int_exact(1);
    lemma_pow2_pos(149);
    lemma2_to64();
    lemma_pow2_adds(24, 125);
    lemma_pow2_pos(125);
    lemma_pow2_adds(9, 149);
    lemma_pow2_strictly_increases(158, 276);
    lemma_pow2_strictly_increases(149, 276);
    assert(grid(0) == 0);
    // The share of the first.
    let rest = difference(one(), a);
    let left = (unit - g) as nat;
    lemma_whole_rounding_error(left);
    lemma_parts_of(!a.negative(), a.magnitude());
    lemma_nearest_exact(0, 1);
    assert(rest == F32::of(false, nearest(left, 1))) by {
        reveal(sum);
    }
    lemma_parts_of(false, nearest(left, 1));
    let r = grid(rest.magnitude());
    assert(0x100_0000 * r <= 0x100_0000 * left + left && 0x100_0000 * left <= 0x100_0000 * r + left)
        by (nonlinear_arith)
        requires
            (0x100_0000 - 1) * left <= 0x100_0000 * r <= (0x100_0000 + 1) * left,
    ;
    lemma_share(first, rest);
    lemma_share(second, a);
    let p = product(of_int(first as int), rest);
    let q = product(of_int(second as int), a);
    let exact = first * left + second * g;
    let (fr, fl, sg) = (first * r, first * left, second * g);
    assert(0x100_0000 * fr <= 0x100_0000 * fl + fl && 0x100_0000 * fl <= 0x100_0000 * fr + fl)
        by (nonlinear_arith)
        requires
            fr == first * r,
            fl == first * left,
            0x100_0000 * r <= 0x100_0000 * left + left,
            0x100_0000 * left <= 0x100_0000 * r + left,
            first >= 0,
    ;
    lemma_mean_between(
        first as int,
        second as int,
        low as int,
        high as int,
        g as int,
        unit as int,
    );
    assert(exact <= 255 * unit) by (nonlinear_arith)
        requires
            exact <= high * unit,
            high <= 255,
    ;
    assert(0 <= fl <= exact && 0 <= sg <= exact) by (nonlinear_arith)
        requires
            fl == first * left,
            sg == second * g,
            exact == fl + sg,
            first >= 0,
            second >= 0,
            left >= 0,
            g >= 0,
    ;
    // The sum.
    let total = grid(p.magnitude()) + grid(q.magnitude());
    assert(0x100_0000 * total <= 0x100_0000 * exact + 1000 * unit);
    assert(0x100_0000 * exact <= 0x100_0000 * total + 1000 * unit);
    lemma_whole_rounding_error(total);
    let m = nearest(total, 1);
    lemma_parts_of(false, m);
    let s = sum(p, q);
    assert(s == F32::of(false, m)) by {
        reveal(sum);
    }
    let k = grid(m) as int;
    assert(0x100_0000 * k <= 0x100_0000 * total + total && 0x100_0000 * total <= 0x100_0000 * k
        + total) by (nonlinear_arith)
        requires
            (0x100_0000 - 1) * total <= 0x100_0000 * k <= (0x100_0000 + 1) * total,
    ;
    assert(exact - unit < k < exact + unit);
    reveal(byte_of);
    let w = k / unit as int;
    vstd::arithmetic::div_mod::lemma_fundamental_div_mod(k, unit as int);
    assert(low - 1 <= w <= high) by (nonlinear_arith)
        requires
            k == unit * w + k % (unit as int),
            0 <= k % (unit as int) < unit,
            low * unit - unit < k < high * unit + unit,
            unit > 0,
    ;
}

/// A blended channel is at most the greater of the two, and no more than one below the lesser:
/// cutting off the fraction can take one step.
pub proof fn law_blend_stays_between(
    first: Pixel,
    second: Pixel,
    alpha: F32,
    low: u8,
    high: u8,
    c: int,
)
    requires
        !alpha.is_nan(),
        0 <= c < 4,
        low <= channel(first, c) <= high,
        low <= channel(second, c) <= high,
    ensures
        low - 1 <= channel(blended(first, second, alpha), c) <= high,
{
    law_blend_ends(first, second, alpha);
    if !less(alpha, zero()) && !less(one(), alpha) {
        lemma_zero_and_one();
        lemma_of_int_exact(1);
        if alpha.magnitude() < one().magnitude() {
            lemma_grid_increases(alpha.magnitude(), one().magnitude());
        }
        lemma_blend_between(channel(first, c), channel(second, c), low, high, alpha);
    }
}

/// Whether two images of one size have the same colours, whatever their alpha is.
pub open spec fn same_colours(a: Seq<Seq<Pixel>>, b: Seq<Seq<Pixel>>) -> bool {
    &&& a.len() == b.len()
    &&& a[0].len() == b[0].len()
    &&& forall|y: int, x: int, c: int|
        0 <= y < a.len() && 0 <= x < a[0].len() && 0 <= c < 3 ==> #[trigger] channel(a[y][x], c)
            == channel(b[y][x], c)
}

/// The colours of a blurred pixel depend on the colours of the image only: not on its alpha,
/// nor on whether alpha is blurred.
pub proof fn law_colours_do_not_depend_on_alpha(
    a: Seq<Seq<Pixel>>,
    b: Seq<Seq<Pixel>>,
    weights: Seq<F32>,
    blur_alpha: bool,
    other_alpha: bool,
    lanes: bool,
    y: int,
    x: int,
    c: int,
)
    requires
        same_colours(a, b),
        0 <= y < a.len(),
        0 <= x < a[0].len(),
        0 <= c < 3,
    ensures
        channel(blurred(a, weights, blur_alpha, lanes)[y][x], c) == channel(
            blurred(b, weights, other_alpha, lanes)[y][x],
            c,
        ),
{
    let height = a.len() as int;
    let width = a[0].len() as int;
    let p = column_samples(a, weights, blur_alpha, lanes, y, x, c);
    let q = column_samples(b, weights, other_alpha, lanes, y, x, c);
    assert forall|j: int| 0 <= j < weights.len() implies p[j] == q[j] by {
        let row = tap(y, j - reach(weights), height);
        let s = row_samples(a, weights, row, x, c);
        let t = row_samples(b, weights, row, x, c);
        assert forall|i: int| 0 <= i < weights.len() implies s[i] == t[i] by {
            let at = tap(x, i - reach(weights), width);
            assert(channel(a[row][at], c) == channel(b[row][at], c));
        }
        assert(s =~= t);
    }
    assert(p =~= q);
}

/// The same of the blurs with a fixed window.
pub proof fn law_window_colours_do_not_depend_on_alpha(
    a: Seq<Seq<Pixel>>,
    b: Seq<Seq<Pixel>>,
    weights: Seq<F32>,
    half: int,
    blur_alpha: bool,
    other_alpha: bool,
    y: int,
    x: int,
    c: int,
)
    requires
        same_colours(a, b),
        0 <= half,
        0 <= y < a.len(),
        0 <= x < a[0].len(),
        0 <= c < 3,
    ensures
        channel(windowed_image(a, weights, half, blur_alpha)[y][x], c) == channel(
            windowed_image(b, weights, half, other_alpha)[y][x],
            c,
        ),
{
    let p = window_samples(a, half, y, x, c);
    let q = window_samples(b, half, y, x, c);
    let side = 2 * half + 1;
    assert forall|k: int| 0 <= k < p.len() implies p[k] == q[k] by {
        let row = tap(y, k / side - half, a.len() as int);
        let at = tap(x, k % side - half, a[0].len() as int);
        assert(channel(a[row][at], c) == channel(b[row][at], c));
    }
    assert(p =~= q);
}

} // verus!
