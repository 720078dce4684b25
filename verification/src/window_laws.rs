//! What the blurs with a fixed window compute, in whole numbers.

use crate::accuracy::{are_bounded, exact_dot, lemma_gathered_error, lemma_terms, terms, within};
use crate::brightness::{are_plain, exact_sum};
use crate::float::arith::{product, quotient, sum};
use crate::float::convert::{byte_of, of_int};
use crate::float::error::{lemma_near_cancel, lemma_near_scale, lemma_rounding_error, near};
use crate::float::order::{
    is_plain, lemma_byte_round_trip, lemma_infinity_is_large, lemma_of_int_exact, lemma_on_grid,
};
use crate::float::repr::{grid, lemma_parts_of, F32};
use crate::float::round::{lemma_nearest_exact, nearest};
use crate::pixel::{channel, Pixel};
use crate::sampling::{tap, weighted_sum};
use crate::window::{
    numerators_3x3, numerators_5x5, window_samples, window_weights, windowed_image,
};
use vstd::arithmetic::power2::{
    lemma2_to64, lemma_pow2_adds, lemma_pow2_pos, lemma_pow2_strictly_increases, pow2,
};
use vstd::prelude::*;

verus! {

/// The sum of the first `n` numerators of a window.
pub open spec fn numerator_sum(numerators: Seq<u8>, n: nat) -> nat
    decreases n,
{
    if n == 0 {
        0
    } else {
        numerator_sum(numerators, (n - 1) as nat) + numerators[n - 1] as nat
    }
}

/// The weights of the fixed windows add up to one: their numerators add up to the
/// denominator.
pub proof fn law_windows_are_normalized()
    ensures
        numerator_sum(numerators_3x3(), 9) == 16,
        numerator_sum(numerators_5x5(), 25) == 273,
{
    reveal_with_fuel(numerator_sum, 26);
}

/// The value of one channel at the place `k` of a window that reaches `half` to every side.
pub open spec fn window_value(
    image: Seq<Seq<Pixel>>,
    half: int,
    y: int,
    x: int,
    c: int,
    k: int,
) -> u8 {
    let side = 2 * half + 1;
    channel(
        image[tap(y, k / side - half, image.len() as int)][tap(
            x,
            k % side - half,
            image[0].len() as int,
        )],
        c,
    )
}

/// The sum of the first `n` values in a window, each multiplied by its numerator.
pub open spec fn window_total(
    image: Seq<Seq<Pixel>>,
    numerators: Seq<u8>,
    half: int,
    y: int,
    x: int,
    c: int,
    n: nat,
) -> nat
    decreases n,
{
    if n == 0 {
        0
    } else {
        window_total(image, numerators, half, y, x, c, (n - 1) as nat) + window_value(
            image,
            half,
            y,
            x,
            c,
            n - 1,
        ) as nat * numerators[n - 1] as nat
    }
}

/// The sum is at most 255 times that of the numerators.
proof fn lemma_window_total(
    image: Seq<Seq<Pixel>>,
    numerators: Seq<u8>,
    half: int,
    y: int,
    x: int,
    c: int,
    n: nat,
)
    ensures
        window_total(image, numerators, half, y, x, c, n) <= 255 * numerator_sum(numerators, n),
    decreases n,
{
    if n > 0 {
        lemma_window_total(image, numerators, half, y, x, c, (n - 1) as nat);
        let v = window_value(image, half, y, x, c, n - 1);
        let k = numerators[n - 1];
        assert(v * k <= 255 * k) by (nonlinear_arith)
            requires
                v <= 255,
                k >= 0,
        ;
    }
}

/// Whether a number is so many sixteenths.
spec fn is_sixteenths(x: F32, n: nat) -> bool {
    &&& is_plain(x)
    &&& x.is_finite()
    &&& grid(x.magnitude()) == n * pow2(145)
}

/// The number that so many sixteenths round to, over some divisor, is exact.
proof fn lemma_sixteenths(n: nat, d: nat)
    requires
        n < 0x100_0000,
        d > 0,
    ensures
        is_sixteenths(F32::of(false, nearest((n * pow2(145)) * d, d)), n),
{
    let m = lemma_on_grid(n, 145);
    lemma_pow2_pos(149);
    lemma_pow2_adds(145, 4);
    lemma2_to64();
    lemma_pow2_pos(145);
    assert(n * pow2(145) < 0x100_0000 * pow2(149)) by (nonlinear_arith)
        requires
            n < 0x100_0000,
            pow2(145) > 0,
            pow2(149) == pow2(145) * 16,
    ;
    lemma_infinity_is_large(m);
    lemma_nearest_exact(m, d);
    lemma_parts_of(false, m);
}

/// A weighted sum with sixteenths is exact.
proof fn lemma_sixteenths_sum(
    image: Seq<Seq<Pixel>>,
    numerators: Seq<u8>,
    half: int,
    y: int,
    x: int,
    c: int,
    n: nat,
)
    requires
        n <= window_samples(image, half, y, x, c).len(),
        n <= numerators.len(),
        numerator_sum(numerators, n) <= 0x1000,
    ensures
        is_sixteenths(
            weighted_sum(
                window_samples(image, half, y, x, c),
                window_weights(numerators, 16),
                n,
            ),
            window_total(image, numerators, half, y, x, c, n),
        ),
    decreases n,
{
    let samples = window_samples(image, half, y, x, c);
    let weights = window_weights(numerators, 16);
    let unit = pow2(149);
    let small = pow2(145);
    lemma_pow2_pos(149);
    lemma_pow2_pos(145);
    lemma_pow2_adds(145, 4);
    lemma2_to64();
    if n == 0 {
        assert(0 * pow2(145) == 0);
        assert(grid(0) == 0);
    } else {
        let before = window_total(image, numerators, half, y, x, c, (n - 1) as nat);
        let v = window_value(image, half, y, x, c, n - 1) as nat;
        let k = numerators[n - 1] as nat;
        lemma_sixteenths_sum(image, numerators, half, y, x, c, (n - 1) as nat);
        lemma_window_total(image, numerators, half, y, x, c, (n - 1) as nat);
        assert(v * k <= 0x1_0000) by (nonlinear_arith)
            requires
                v <= 255,
                k <= 255,
        ;
        let weight = weights[n - 1];
        assert(is_sixteenths(weight, k)) by {
            reveal(quotient);
            lemma_of_int_exact(k);
            lemma_of_int_exact(16);
            assert((k * unit) * unit == (k * small) * (16 * unit)) by (nonlinear_arith)
                requires
                    unit == small * 16,
            ;
            lemma_sixteenths(k, 16 * unit);
        }
        assert(samples[n - 1] == of_int(v as int));
        let term = product(samples[n - 1], weight);
        assert(is_sixteenths(term, v * k)) by {
            reveal(product);
            lemma_of_int_exact(v);
            assert((v * unit) * (k * small) == ((v * k) * small) * unit) by (nonlinear_arith);
            lemma_sixteenths(v * k, unit);
        }
        let total = weighted_sum(samples, weights, (n - 1) as nat);
        assert(is_sixteenths(sum(total, term), before + v * k)) by {
            reveal(sum);
            let exact = before * small + (v * k) * small;
            assert(exact == (before + v * k) * small) by (nonlinear_arith)
                requires
                    exact == before * small + (v * k) * small,
            ;
            assert(((before + v * k) * small) * 1 == exact);
            lemma_sixteenths(before + v * k, 1);
            if exact == 0 {
                assert(grid(0) == 0);
            }
        }
    }
}

/// The three by three blur gives the sum of the window, each value multiplied by its numerator,
/// over 16, cut off.
pub proof fn law_3x3_blur_is_exact(
    image: Seq<Seq<Pixel>>,
    blur_alpha: bool,
    y: int,
    x: int,
    c: int,
)
    requires
        0 <= y < image.len(),
        0 <= x < image[0].len(),
        0 <= c < 3 || c == 3 && blur_alpha,
    ensures
        channel(
            windowed_image(image, window_weights(numerators_3x3(), 16), 1, blur_alpha)[y][x],
            c,
        ) == window_total(image, numerators_3x3(), 1, y, x, c, 9) / 16,
{
    let numerators = numerators_3x3();
    let n = window_total(image, numerators, 1, y, x, c, 9);
    law_windows_are_normalized();
    assert((2 * 1 + 1) * (2 * 1 + 1) == 9) by (nonlinear_arith);
    assert(window_samples(image, 1, y, x, c).len() == 9);
    lemma_sixteenths_sum(image, numerators, 1, y, x, c, 9);
    lemma_window_total(image, numerators, 1, y, x, c, 9);
    lemma_pow2_adds(145, 4);
    lemma_pow2_pos(145);
    lemma2_to64();
    let small = pow2(145);
    assert((n * small) / (small * 16) == n / 16) by {
        vstd::arithmetic::div_mod::lemma_truncate_middle(0, small as int, 16);
        assert(n * small == small * n) by (nonlinear_arith);
        vstd::arithmetic::div_mod::lemma_div_denominator((n * small) as int, small as int, 16);
        vstd::arithmetic::div_mod::lemma_div_multiples_vanish(n as int, small as int);
    }
    reveal(byte_of);
}

/// The sum of a window that holds one value.
proof fn lemma_uniform_total(
    image: Seq<Seq<Pixel>>,
    numerators: Seq<u8>,
    half: int,
    y: int,
    x: int,
    c: int,
    v: u8,
    n: nat,
)
    requires
        forall|k: int| 0 <= k < n ==> #[trigger] window_value(image, half, y, x, c, k) == v,
    ensures
        window_total(image, numerators, half, y, x, c, n) == v * numerator_sum(numerators, n),
    decreases n,
{
    if n == 0 {
        assert(v * 0 == 0);
    } else {
        lemma_uniform_total(image, numerators, half, y, x, c, v, (n - 1) as nat);
        let before = numerator_sum(numerators, (n - 1) as nat);
        let k = numerators[n - 1] as nat;
        assert(v * (before + k) == v * before + v * k) by (nonlinear_arith);
        assert(window_value(image, half, y, x, c, n - 1) == v);
    }
}

/// The three by three blur leaves an image of one colour as it is.
pub proof fn law_3x3_blur_keeps_uniform_image(
    image: Seq<Seq<Pixel>>,
    pixel: Pixel,
    blur_alpha: bool,
    y: int,
    x: int,
)
    requires
        0 <= y < image.len(),
        0 <= x < image[0].len(),
        forall|j: int, i: int|
            0 <= j < image.len() && 0 <= i < image[0].len() ==> (#[trigger] image[j][i]) == pixel,
    ensures
        windowed_image(
            image,
            window_weights(numerators_3x3(), 16),
            1,
            blur_alpha,
        )[y][x] == pixel,
{
    let weights = window_weights(numerators_3x3(), 16);
    let result = windowed_image(image, weights, 1, blur_alpha)[y][x];
    assert(image[y][x] == pixel);
    assert forall|c: int| 0 <= c < 4 implies #[trigger] channel(result, c) == channel(pixel, c) by {
        if c < 3 || blur_alpha {
            law_3x3_blur_is_exact(image, blur_alpha, y, x, c);
            let v = channel(pixel, c);
            assert forall|k: int| 0 <= k < 9 implies #[trigger] window_value(image, 1, y, x, c, k)
                == v by {
                let row = tap(y, k / 3 - 1, image.len() as int);
                let column = tap(x, k % 3 - 1, image[0].len() as int);
                assert(image[row][column] == pixel);
            }
            law_windows_are_normalized();
            lemma_uniform_total(image, numerators_3x3(), 1, y, x, c, v, 9);
            assert(v * 16nat / 16 == v);
        } else {
            lemma_byte_round_trip(image[y][x].a);
        }
    }
    assert(result.r == channel(result, 0) && pixel.r == channel(pixel, 0));
    assert(result.g == channel(result, 1) && pixel.g == channel(pixel, 1));
    assert(result.b == channel(result, 2) && pixel.b == channel(pixel, 2));
    assert(result.a == channel(result, 3) && pixel.a == channel(pixel, 3));
}

/// An image with its rows and columns exchanged.
pub open spec fn transposed(image: Seq<Seq<Pixel>>) -> Seq<Seq<Pixel>> {
    Seq::new(image[0].len(), |y: int| Seq::new(image.len(), |x: int| image[x][y]))
}

/// An image with its columns in the opposite order.
pub open spec fn mirrored(image: Seq<Seq<Pixel>>) -> Seq<Seq<Pixel>> {
    Seq::new(
        image.len(),
        |y: int| Seq::new(image[0].len(), |x: int| image[y][image[0].len() - 1 - x]),
    )
}

/// The three by three blur of a transposed image is the transposed blur.
pub proof fn law_3x3_blur_commutes_with_transposing(
    image: Seq<Seq<Pixel>>,
    blur_alpha: bool,
    y: int,
    x: int,
)
    requires
        0 <= y < image.len(),
        0 <= x < image[0].len(),
    ensures
        ({
            let weights = window_weights(numerators_3x3(), 16);
            windowed_image(transposed(image), weights, 1, blur_alpha)[x][y] == windowed_image(
                image,
                weights,
                1,
                blur_alpha,
            )[y][x]
        }),
{
    let weights = window_weights(numerators_3x3(), 16);
    let flipped = transposed(image);
    let a = windowed_image(flipped, weights, 1, blur_alpha)[x][y];
    let b = windowed_image(image, weights, 1, blur_alpha)[y][x];
    assert forall|c: int| 0 <= c < 4 implies #[trigger] channel(a, c) == channel(b, c) by {
        if c < 3 || blur_alpha {
            law_3x3_blur_is_exact(flipped, blur_alpha, x, y, c);
            law_3x3_blur_is_exact(image, blur_alpha, y, x, c);
            assert forall|k: int| 0 <= k < 9 implies #[trigger] window_value(
                flipped,
                1,
                x,
                y,
                c,
                k,
            ) == window_value(image, 1, y, x, c, 3 * (k % 3) + k / 3) by {
                let l = 3 * (k % 3) + k / 3;
                assert(l / 3 == k % 3 && l % 3 == k / 3);
            }
            lemma_same_total(flipped, image, x, y, y, x, c, true);
        }
    }
    assert(a.r == channel(a, 0) && b.r == channel(b, 0));
    assert(a.g == channel(a, 1) && b.g == channel(b, 1));
    assert(a.b == channel(a, 2) && b.b == channel(b, 2));
    assert(a.a == channel(a, 3) && b.a == channel(b, 3));
}

/// The three by three blur of a mirrored image is the mirrored blur.
pub proof fn law_3x3_blur_commutes_with_mirroring(
    image: Seq<Seq<Pixel>>,
    blur_alpha: bool,
    y: int,
    x: int,
)
    requires
        0 <= y < image.len(),
        0 <= x < image[0].len(),
    ensures
        ({
            let weights = window_weights(numerators_3x3(), 16);
            windowed_image(mirrored(image), weights, 1, blur_alpha)[y][image[0].len() - 1 - x]
                == windowed_image(image, weights, 1, blur_alpha)[y][x]
        }),
{
    let weights = window_weights(numerators_3x3(), 16);
    let flipped = mirrored(image);
    let width = image[0].len() as int;
    let m = width - 1 - x;
    let a = windowed_image(flipped, weights, 1, blur_alpha)[y][m];
    let b = windowed_image(image, weights, 1, blur_alpha)[y][x];
    assert forall|c: int| 0 <= c < 4 implies #[trigger] channel(a, c) == channel(b, c) by {
        if c < 3 || blur_alpha {
            law_3x3_blur_is_exact(flipped, blur_alpha, y, m, c);
            law_3x3_blur_is_exact(image, blur_alpha, y, x, c);
            assert forall|k: int| 0 <= k < 9 implies #[trigger] window_value(
                flipped,
                1,
                y,
                m,
                c,
                k,
            ) == window_value(image, 1, y, x, c, 3 * (k / 3) + 2 - k % 3) by {
                let l = 3 * (k / 3) + 2 - k % 3;
                assert(l / 3 == k / 3 && l % 3 == 2 - k % 3);
            }
            lemma_same_total(flipped, image, y, m, y, x, c, false);
        }
    }
    assert(a.r == channel(a, 0) && b.r == channel(b, 0));
    assert(a.g == channel(a, 1) && b.g == channel(b, 1));
    assert(a.b == channel(a, 2) && b.b == channel(b, 2));
    assert(a.a == channel(a, 3) && b.a == channel(b, 3));
}

/// One more value of a window, with its factor.
proof fn lemma_next_value(
    image: Seq<Seq<Pixel>>,
    numerators: Seq<u8>,
    half: int,
    y: int,
    x: int,
    c: int,
    n: nat,
    factor: int,
)
    requires
        numerators[n as int] == factor,
    ensures
        window_total(image, numerators, half, y, x, c, n + 1) == window_total(
            image,
            numerators,
            half,
            y,
            x,
            c,
            n,
        ) + factor * window_value(image, half, y, x, c, n as int),
{
    let v = window_value(image, half, y, x, c, n as int) as int;
    assert(v * factor == factor * v) by (nonlinear_arith);
}

/// The sum of a window of three by three values, written out.
proof fn lemma_3x3_total(image: Seq<Seq<Pixel>>, y: int, x: int, c: int)
    ensures
        ({
            let v = |k: int| window_value(image, 1, y, x, c, k) as int;
            window_total(image, numerators_3x3(), 1, y, x, c, 9) == v(0) + 2 * v(1) + v(2) + 2 * v(
                3,
            ) + 4 * v(4) + 2 * v(5) + v(6) + 2 * v(7) + v(8)
        }),
{
    let k = numerators_3x3();
    assert(window_total(image, k, 1, y, x, c, 0) == 0);
    lemma_next_value(image, k, 1, y, x, c, 0, 1);
    lemma_next_value(image, k, 1, y, x, c, 1, 2);
    lemma_next_value(image, k, 1, y, x, c, 2, 1);
    lemma_next_value(image, k, 1, y, x, c, 3, 2);
    lemma_next_value(image, k, 1, y, x, c, 4, 4);
    lemma_next_value(image, k, 1, y, x, c, 5, 2);
    lemma_next_value(image, k, 1, y, x, c, 6, 1);
    lemma_next_value(image, k, 1, y, x, c, 7, 2);
    lemma_next_value(image, k, 1, y, x, c, 8, 1);
}

/// Two windows that hold the same values, transposed or mirrored, have the same sum.
proof fn lemma_same_total(
    a: Seq<Seq<Pixel>>,
    b: Seq<Seq<Pixel>>,
    ya: int,
    xa: int,
    yb: int,
    xb: int,
    c: int,
    transpose: bool,
)
    requires
        forall|k: int|
            0 <= k < 9 ==> #[trigger] window_value(a, 1, ya, xa, c, k) == window_value(
                b,
                1,
                yb,
                xb,
                c,
                if transpose {
                    3 * (k % 3) + k / 3
                } else {
                    3 * (k / 3) + 2 - k % 3
                },
            ),
    ensures
        window_total(a, numerators_3x3(), 1, ya, xa, c, 9) == window_total(
            b,
            numerators_3x3(),
            1,
            yb,
            xb,
            c,
            9,
        ),
{
    let u = |k: int| window_value(a, 1, ya, xa, c, k);
    let v = |k: int| window_value(b, 1, yb, xb, c, k);
    if transpose {
        assert(u(0) == v(0));
        assert(u(1) == v(3));
        assert(u(2) == v(6));
        assert(u(3) == v(1));
        assert(u(4) == v(4));
        assert(u(5) == v(7));
        assert(u(6) == v(2));
        assert(u(7) == v(5));
        assert(u(8) == v(8));
    } else {
        assert(u(0) == v(2));
        assert(u(1) == v(1));
        assert(u(2) == v(0));
        assert(u(3) == v(5));
        assert(u(4) == v(4));
        assert(u(5) == v(3));
        assert(u(6) == v(8));
        assert(u(7) == v(7));
        assert(u(8) == v(6));
    }
    lemma_3x3_total(a, ya, xa, c);
    lemma_3x3_total(b, yb, xb, c);
}

/// A weight of so many parts of 273, with its rounding error.
proof fn lemma_weight_of_273(k: nat)
    requires
        0 < k <= 255,
    ensures
        ({
            let w = quotient(of_int(k as int), of_int(273));
            &&& is_plain(w)
            &&& w.is_finite()
            &&& near(273 * grid(w.magnitude()) as int, (k * pow2(149)) as int, 1)
        }),
{
    let unit = pow2(149);
    lemma_of_int_exact(k);
    lemma_of_int_exact(273);
    lemma_pow2_pos(149);
    lemma_pow2_adds(23, 126);
    lemma_pow2_pos(126);
    lemma2_to64();
    let n = (k * unit) * unit;
    let d = 273 * unit;
    lemma_pow2_adds(9, 117);
    lemma_pow2_pos(117);
    assert(d * 0x80_0000 <= n) by (nonlinear_arith)
        requires
            n == (k * unit) * unit,
            d == 273 * unit,
            k >= 1,
            unit == 0x80_0000 * pow2(126),
            pow2(126) == 512 * pow2(117),
            pow2(117) >= 1,
    {
        assert(unit >= 273 * 0x80_0000);
        assert((k * unit) * unit >= unit * unit);
        assert(unit * unit >= (273 * 0x80_0000) * unit);
    }
    lemma_pow2_adds(8, 149);
    lemma_pow2_strictly_increases(157, 276);
    assert(k * unit <= 256 * unit) by (nonlinear_arith)
        requires
            k <= 255,
    ;
    assert(n < d * pow2(276)) by (nonlinear_arith)
        requires
            n == (k * unit) * unit,
            d == 273 * unit,
            k * unit < pow2(276),
            unit > 0,
    {
        assert((k * unit) * unit < pow2(276) * unit);
        assert((273 * unit) * pow2(276) >= unit * pow2(276));
    }
    lemma_rounding_error(n, d);
    let m = nearest(n, d);
    lemma_parts_of(false, m);
    assert(grid(0) == 0);
    assert(quotient(of_int(k as int), of_int(273)) == F32::of(false, m)) by {
        reveal(quotient);
    }
    let g = grid(m) as int;
    let want = (k * unit) as int;
    assert(g * d == (273 * g) * unit) by (nonlinear_arith)
        requires
            d == 273 * unit,
    ;
    lemma_near_cancel(273 * g, want, unit as int, 1);
}

/// The exact weighted sum of a window with the weights over 273, and the sum of these.
proof fn lemma_sum_of_273(
    image: Seq<Seq<Pixel>>,
    numerators: Seq<u8>,
    half: int,
    y: int,
    x: int,
    c: int,
    n: nat,
)
    requires
        n <= window_samples(image, half, y, x, c).len(),
        n <= numerators.len(),
        forall|k: int| 0 <= k < numerators.len() ==> (#[trigger] numerators[k]) > 0,
    ensures
        ({
            let samples = window_samples(image, half, y, x, c);
            let weights = window_weights(numerators, 273);
            let unit = pow2(149) as int;
            let total = window_total(image, numerators, half, y, x, c, n) * unit;
            let got = 273 * exact_dot(samples, weights, n) as int;
            &&& within(got, total * unit, total * unit)
            &&& 273 * exact_sum(weights, n) <= 2 * (numerator_sum(numerators, n) * unit)
        }),
    decreases n,
{
    let samples = window_samples(image, half, y, x, c);
    let weights = window_weights(numerators, 273);
    let unit = pow2(149) as int;
    if n == 0 {
        assert(0 * unit == 0);
    } else {
        let m = (n - 1) as nat;
        lemma_sum_of_273(image, numerators, half, y, x, c, m);
        let v = window_value(image, half, y, x, c, n - 1) as int;
        let k = numerators[n - 1] as int;
        lemma_weight_of_273(k as nat);
        lemma_of_int_exact(v as nat);
        assert(samples[n - 1] == of_int(v));
        let w = grid(weights[n - 1].magnitude()) as int;
        let before = window_total(image, numerators, half, y, x, c, m) as int;
        let dot = exact_dot(samples, weights, m) as int;
        let term = (v * unit) * w;
        let part = ((v * k) * unit) * unit;
        assert(((before + v * k) * unit) * unit == (before * unit) * unit + part)
            by (nonlinear_arith)
            requires
                part == ((v * k) * unit) * unit,
        ;
        let ku = k * unit;
        let vu = v * unit;
        assert(vu >= 0) by (nonlinear_arith)
            requires
                vu == v * unit,
                v >= 0,
                unit >= 0,
        ;
        assert(part == ku * vu && 273 * term == (273 * w) * vu) by (nonlinear_arith)
            requires
                part == ((v * k) * unit) * unit,
                term == (v * unit) * w,
                ku == k * unit,
                vu == v * unit,
        ;
        lemma_near_scale(273 * w, ku, vu, 1);
        assert(0x100_0000 * (273 * term) <= 0x100_0000 * part + part && 0x100_0000 * part
            <= 0x100_0000 * (273 * term) + part) by (nonlinear_arith)
            requires
                (0x100_0000 - 1) * part <= 0x100_0000 * (273 * term) <= (0x100_0000 + 1) * part,
        ;
        let sums = numerator_sum(numerators, m) as int;
        assert((sums + k) * unit == sums * unit + ku) by (nonlinear_arith)
            requires
                ku == k * unit,
        ;
        assert(273 * w <= 2 * ku) by (nonlinear_arith)
            requires
                0x100_0000 * (273 * w) <= (0x100_0000 + 1) * ku,
                ku >= 0,
        ;
    }
}

/// The five by five blur gives the sum of the window, each value multiplied by its numerator,
/// over 273, cut off. Where the division leaves no remainder, rounding may take one step.
pub proof fn law_5x5_blur_is_exact(
    image: Seq<Seq<Pixel>>,
    blur_alpha: bool,
    y: int,
    x: int,
    c: int,
)
    requires
        0 <= y < image.len(),
        0 <= x < image[0].len(),
        0 <= c < 3 || c == 3 && blur_alpha,
    ensures
        ({
            let total = window_total(image, numerators_5x5(), 2, y, x, c, 25);
            let r = channel(
                windowed_image(image, window_weights(numerators_5x5(), 273), 2, blur_alpha)[y][x],
                c,
            );
            &&& total % 273 != 0 ==> r == total / 273
            &&& total % 273 == 0 ==> r == total / 273 || r == total / 273 - 1
        }),
{
    let numerators = numerators_5x5();
    let samples = window_samples(image, 2, y, x, c);
    let weights = window_weights(numerators, 273);
    let unit = pow2(149) as int;
    let total = window_total(image, numerators, 2, y, x, c, 25) as int;
    law_windows_are_normalized();
    assert((2 * 2 + 1) * (2 * 2 + 1) == 25) by (nonlinear_arith);
    assert(samples.len() == 25);
    lemma_sum_of_273(image, numerators, 2, y, x, c, 25);
    lemma_window_total(image, numerators, 2, y, x, c, 25);
    lemma_pow2_pos(149);
    lemma2_to64();
    lemma_pow2_adds(1, 149);
    lemma_pow2_adds(8, 149);
    lemma_pow2_strictly_increases(157, 158);
    assert(are_plain(weights)) by {
        assert forall|k: int| 0 <= k < 25 implies is_plain(#[trigger] weights[k])
            && weights[k].is_finite() by {
            lemma_weight_of_273(numerators[k] as nat);
        }
    }
    let bound = 256 * pow2(149);
    assert(are_bounded(samples, bound)) by {
        assert forall|k: int| 0 <= k < 25 implies is_plain(#[trigger] samples[k])
            && samples[k].is_finite() && grid(samples[k].magnitude()) <= bound by {
            let v = window_value(image, 2, y, x, c, k) as nat;
            lemma_of_int_exact(v);
            assert(v * pow2(149) <= 256 * pow2(149)) by (nonlinear_arith)
                requires
                    v <= 255,
            ;
        }
    }
    lemma_terms(samples, weights, true, bound, 25);
    let all = terms(samples, weights, true);
    let p = exact_sum(all, 25) as int;
    let dot = exact_dot(samples, weights, 25) as int;
    // The sum is small.
    let tu = total * unit;
    assert(0 <= tu <= 69615 * unit) by (nonlinear_arith)
        requires
            tu == total * unit,
            0 <= total <= 69615,
            unit >= 0,
    ;
    let want = tu * unit;
    lemma_pow2_adds(24, 125);
    lemma_pow2_pos(125);
    let pu = p * unit;
    let square = unit * unit;
    assert(0 <= want <= 69615 * square) by (nonlinear_arith)
        requires
            want == tu * unit,
            square == unit * unit,
            0 <= tu <= 69615 * unit,
            unit >= 0,
    ;
    lemma_pow2_strictly_increases(13, 125);
    assert(0x20_0000_0000 * unit <= square) by (nonlinear_arith)
        requires
            square == unit * unit,
            unit == 0x100_0000 * pow2(125),
            pow2(125) >= 0x2000,
    {
        assert(unit >= 0x20_0000_0000);
    }
    assert(within(pu, dot, 2 * dot + 25 * (0x100_0000 * unit)));
    assert(within(273 * dot, want, want));
    assert(0x100_0000 * (273 * pu) <= 0x100_0000 * want + 4 * want + square);
    assert(0x100_0000 * want <= 0x100_0000 * (273 * pu) + 4 * want + square);
    assert(p < 512 * unit) by (nonlinear_arith)
        requires
            273 * (p * unit) < 273 * (512 * (unit * unit)),
            unit > 0,
    ;
    lemma_pow2_adds(9, 149);
    lemma_pow2_strictly_increases(158, 270);
    lemma_gathered_error(samples, weights, true, 25);
    let value = weighted_sum(samples, weights, 25);
    let g = grid(value.magnitude()) as int;
    let tp = 273 * p;
    assert(tp * unit == 273 * pu) by (nonlinear_arith)
        requires
            tp == 273 * p,
            pu == p * unit,
    ;
    assert(0x100_0000 * tp <= 0x100_0000 * tu + 4 * tu + unit) by (nonlinear_arith)
        requires
            0x100_0000 * (tp * unit) <= 0x100_0000 * (tu * unit) + 4 * (tu * unit) + unit * unit,
            unit > 0,
    ;
    assert(0x100_0000 * tu <= 0x100_0000 * tp + 4 * tu + unit) by (nonlinear_arith)
        requires
            0x100_0000 * (tu * unit) <= 0x100_0000 * (tp * unit) + 4 * (tu * unit) + unit * unit,
            unit > 0,
    ;
    assert(0x100_0000 * (273 * g) <= 0x100_0000 * tp + 75 * tp && 0x100_0000 * tp <= 0x100_0000 * (
    273 * g) + 75 * tp) by (nonlinear_arith)
        requires
            (0x100_0000 - 75) * p <= 0x100_0000 * g <= (0x100_0000 + 75) * p,
            tp == 273 * p,
    ;
    assert(tu - unit < 273 * g < tu + unit);
    reveal(byte_of);
    let w = g / unit;
    let (a, b) = (total / 273, total % 273);
    vstd::arithmetic::div_mod::lemma_fundamental_div_mod(g, unit);
    assert(tu == 273 * (a * unit) + b * unit) by (nonlinear_arith)
        requires
            tu == total * unit,
            total == 273 * a + b,
    ;
    assert(b == 0 ==> (w == a || w == a - 1)) by (nonlinear_arith)
        requires
            g == unit * w + g % unit,
            0 <= g % unit < unit,
            tu - unit < 273 * g < tu + unit,
            tu == 273 * (a * unit) + b * unit,
            unit > 0,
    {
        if b == 0 {
            assert(273 * (unit * w) < 273 * (a * unit) + unit);
            assert(273 * (a * unit) - unit < 273 * (unit * w) + 273 * unit);
            assert(unit * (273 * w) < unit * (273 * a + 1));
            assert(273 * w < 273 * a + 1);
            assert(unit * (273 * a - 1) < unit * (273 * w + 273));
            assert(273 * a - 1 < 273 * w + 273);
        }
    }
    assert(b > 0 ==> w == a) by (nonlinear_arith)
        requires
            g == unit * w + g % unit,
            0 <= g % unit < unit,
            tu - unit < 273 * g < tu + unit,
            tu == 273 * (a * unit) + b * unit,
            unit > 0,
            0 <= b < 273,
    {
        if b > 0 {
            assert(unit * (273 * w) < unit * (273 * a + b + 1));
            assert(273 * w < 273 * a + b + 1);
            assert(unit * (273 * a + b - 1) < unit * (273 * w + 273));
            assert(273 * a + b - 1 < 273 * w + 273);
        }
    }
}

} // verus!
