//! Blurs with a small fixed window of weights.

use crate::float::arith::quotient;
use crate::float::convert::{byte_of, of_int};
use crate::float::numbers::{zero, ZERO_BITS};
use crate::float::repr::F32;
use crate::parallel::map_indices;
use crate::pixel::{channel, Pixel};
use crate::sampling::{clamp_index, pixels_of, tap, weighted_sum};
use crate::separable::can_blur;
use vstd::prelude::*;

verus! {

/// The weights of a window: each numerator over the common denominator.
pub open spec fn window_weights(numerators: Seq<u8>, denominator: int) -> Seq<F32> {
    Seq::new(
        numerators.len(),
        |k: int| quotient(of_int(numerators[k] as int), of_int(denominator)),
    )
}

/// The numerators of the window of three by three weights, over 16.
pub open spec fn numerators_3x3() -> Seq<u8> {
    seq![1, 2, 1, 2, 4, 2, 1, 2, 1]
}

/// The numerators of the window of five by five weights, over 273.
pub open spec fn numerators_5x5() -> Seq<u8> {
    seq![
        1, 4, 7, 4, 1,
        4, 16, 26, 16, 4,
        7, 26, 41, 26, 7,
        4, 16, 26, 16, 4,
        1, 4, 7, 4, 1,
    ]
}

/// The samples in a window that reaches `half` to every side of a pixel, row by row.
pub open spec fn window_samples(
    image: Seq<Seq<Pixel>>,
    half: int,
    y: int,
    x: int,
    c: int,
) -> Seq<F32> {
    let side = 2 * half + 1;
    Seq::new(
        (side * side) as nat,
        |k: int|
            of_int(
                channel(
                    image[tap(y, k / side - half, image.len() as int)][tap(
                        x,
                        k % side - half,
                        image[0].len() as int,
                    )],
                    c,
                ) as int,
            ),
    )
}

/// One channel of a pixel, blurred with a window.
pub open spec fn windowed(
    image: Seq<Seq<Pixel>>,
    weights: Seq<F32>,
    half: int,
    blur_alpha: bool,
    y: int,
    x: int,
    c: int,
) -> F32 {
    if c == 3 && !blur_alpha {
        of_int(image[y][x].a as int)
    } else {
        weighted_sum(window_samples(image, half, y, x, c), weights, weights.len())
    }
}

/// One pixel, blurred with a window.
pub open spec fn windowed_pixel(
    image: Seq<Seq<Pixel>>,
    weights: Seq<F32>,
    half: int,
    blur_alpha: bool,
    y: int,
    x: int,
) -> Pixel {
    Pixel {
        r: byte_of(windowed(image, weights, half, blur_alpha, y, x, 0)),
        g: byte_of(windowed(image, weights, half, blur_alpha, y, x, 1)),
        b: byte_of(windowed(image, weights, half, blur_alpha, y, x, 2)),
        a: byte_of(windowed(image, weights, half, blur_alpha, y, x, 3)),
    }
}

/// An image, blurred with a window. It is as high as the image, and as wide as its first
/// row.
pub open spec fn windowed_image(
    image: Seq<Seq<Pixel>>,
    weights: Seq<F32>,
    half: int,
    blur_alpha: bool,
) -> Seq<Seq<Pixel>> {
    Seq::new(
        image.len(),
        |y: int|
            Seq::new(
                image[0].len(),
                |x: int| windowed_pixel(image, weights, half, blur_alpha, y, x),
            ),
    )
}

/// Whether so many weights fill a window that reaches `half` to every side.
spec fn fills_window(len: nat, half: int) -> bool {
    ||| half == 1 && len == 9
    ||| half == 2 && len == 25
}

/// One pixel, blurred with a window.
fn window_pixel(
    image: &[Vec<Pixel>],
    weights: &Vec<F32>,
    half: i32,
    blur_alpha: bool,
    y: usize,
    x: usize,
) -> (p: Pixel)
    requires
        can_blur(image@, half as int),
        fills_window(weights@.len(), half as int),
        y < image@.len(),
        x < image@[0]@.len(),
    ensures
        p == windowed_pixel(
            pixels_of(image@),
            weights@,
            half as int,
            blur_alpha,
            y as int,
            x as int,
        ),
{
    let height = image.len();
    let width = image[0].len();
    let side: usize = (2 * half + 1) as usize;
    let mut r = F32::from_bits(ZERO_BITS);
    let mut g = F32::from_bits(ZERO_BITS);
    let mut b = F32::from_bits(ZERO_BITS);
    let mut a = F32::from_bits(ZERO_BITS);
    let ghost pixels = pixels_of(image@);
    let ghost samples = |c: int| window_samples(pixels, half as int, y as int, x as int, c);
    assert(weights@.len() == side * side) by (nonlinear_arith)
        requires
            (side == 3 && weights@.len() == 9) || (side == 5 && weights@.len() == 25),
    ;
    for k in 0..weights.len()
        invariant
            can_blur(image@, half as int),
            fills_window(weights@.len(), half as int),
            weights@.len() == side * side,
            side == 2 * half + 1,
            y < image@.len(),
            x < image@[0]@.len(),
            height == image@.len(),
            width == image@[0]@.len(),
            pixels == pixels_of(image@),
            samples == (|c: int| window_samples(pixels, half as int, y as int, x as int, c)),
            r == weighted_sum(samples(0), weights@, k as nat),
            g == weighted_sum(samples(1), weights@, k as nat),
            b == weighted_sum(samples(2), weights@, k as nat),
            a == if blur_alpha {
                weighted_sum(samples(3), weights@, k as nat)
            } else {
                zero()
            },
    {
        assert(k / side < side) by (nonlinear_arith)
            requires
                k < side * side,
                side > 0,
        ;
        let py = clamp_index(y, (k / side) as i32 - half, height);
        let px = clamp_index(x, (k % side) as i32 - half, width);
        assert(image@[0]@.len() <= image@[py as int]@.len());
        let pixel = image[py][px].to_f32_array();
        let weight = weights[k];
        r = r.plus(pixel[0].times(weight));
        g = g.plus(pixel[1].times(weight));
        b = b.plus(pixel[2].times(weight));
        if blur_alpha {
            a = a.plus(pixel[3].times(weight));
        }
    }
    if !blur_alpha {
        assert(image@[0]@.len() <= image@[y as int]@.len());
        a = F32::from_u8(image[y][x].a);
    }
    let arr: [F32; 4] = [r, g, b, a];
    let p = Pixel::from_f32_array(arr);
    proof {
        assert(channel(p, 0) == byte_of(arr@[0]));
        assert(channel(p, 1) == byte_of(arr@[1]));
        assert(channel(p, 2) == byte_of(arr@[2]));
        assert(channel(p, 3) == byte_of(arr@[3]));
    }
    p
}

/// One row, blurred with a window.
fn window_row(
    image: &[Vec<Pixel>],
    weights: &Vec<F32>,
    half: i32,
    blur_alpha: bool,
    y: usize,
) -> (row: Vec<Pixel>)
    requires
        can_blur(image@, half as int),
        fills_window(weights@.len(), half as int),
        y < image@.len(),
    ensures
        row@ == windowed_image(pixels_of(image@), weights@, half as int, blur_alpha)[y as int],
{
    let width = image[0].len();
    let mut row: Vec<Pixel> = Vec::new();
    for x in 0..width
        invariant
            can_blur(image@, half as int),
            fills_window(weights@.len(), half as int),
            y < image@.len(),
            width == image@[0]@.len(),
            row@.len() == x,
            forall|i: int|
                0 <= i < x ==> row@[i] == windowed_pixel(
                    pixels_of(image@),
                    weights@,
                    half as int,
                    blur_alpha,
                    y as int,
                    i,
                ),
    {
        row.push(window_pixel(image, weights, half, blur_alpha, y, x));
    }
    assert(row@ =~= windowed_image(pixels_of(image@), weights@, half as int, blur_alpha)[y as int]);
    row
}

/// An image, blurred with a window, with its rows computed in parallel.
fn window_blur(
    image: &[Vec<Pixel>],
    numerators: &[u8],
    denominator: u64,
    half: i32,
    blur_alpha: bool,
) -> (r: Vec<Vec<Pixel>>)
    requires
        can_blur(image@, half as int),
        fills_window(numerators@.len(), half as int),
    ensures
        pixels_of(r@) == windowed_image(
            pixels_of(image@),
            window_weights(numerators@, denominator as int),
            half as int,
            blur_alpha,
        ),
{
    let mut weights: Vec<F32> = Vec::new();
    for k in 0..numerators.len()
        invariant
            weights@.len() == k,
            forall|i: int|
                0 <= i < k ==> weights@[i] == window_weights(numerators@, denominator as int)[i],
    {
        weights.push(F32::from_u8(numerators[k]).over(F32::from_u64(denominator)));
    }
    assert(weights@ =~= window_weights(numerators@, denominator as int));
    let height = image.len();
    let blur_row = |y: usize| -> (row: Vec<Pixel>)
        requires
            y < image@.len(),
        ensures
            row@ == windowed_image(pixels_of(image@), weights@, half as int, blur_alpha)[y as int],
    {
        window_row(image, &weights, half, blur_alpha, y)
    };
    let r: Vec<Vec<Pixel>> = map_indices(height, blur_row);
    assert(pixels_of(r@) =~= windowed_image(pixels_of(image@), weights@, half as int, blur_alpha));
    r
}

/// Optimized 3x3 Gaussian blur
pub fn gaussian_blur_3x3(image: &[Vec<Pixel>], blur_alpha: bool) -> (r: Vec<Vec<Pixel>>)
    requires
        can_blur(image@, 1),
    ensures
        pixels_of(r@) == windowed_image(
            pixels_of(image@),
            window_weights(numerators_3x3(), 16),
            1,
            blur_alpha,
        ),
{
    let numerators: [u8; 9] = [1, 2, 1, 2, 4, 2, 1, 2, 1];
    assert(numerators@ =~= numerators_3x3());
    window_blur(image, numerators.as_slice(), 16, 1, blur_alpha)
}

/// Optimized 5x5 Gaussian blur
pub fn gaussian_blur_5x5(image: &[Vec<Pixel>], blur_alpha: bool) -> (r: Vec<Vec<Pixel>>)
    requires
        can_blur(image@, 2),
    ensures
        pixels_of(r@) == windowed_image(
            pixels_of(image@),
            window_weights(numerators_5x5(), 273),
            2,
            blur_alpha,
        ),
{
    let numerators: [u8; 25] = [
        1, 4, 7, 4, 1,
        4, 16, 26, 16, 4,
        7, 26, 41, 26, 7,
        4, 16, 26, 16, 4,
        1, 4, 7, 4, 1,
    ];
    assert(numerators@ =~= numerators_5x5());
    window_blur(image, numerators.as_slice(), 273, 2, blur_alpha)
}

} // verus!
