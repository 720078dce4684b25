//! The blur in two passes, with the four channels of a pixel computed together.

use crate::float::arith::{product, sum};
use crate::float::convert::{byte_of, of_int};
use crate::float::lanes::F32x4;
use crate::float::numbers::{ONE_BITS, ZERO_BITS};
use crate::float::repr::F32;
use crate::parallel::map_indices;
use crate::pixel::{channel, Pixel};
use crate::sampling::{
    clamp_index, normalized, pixels_of, running_sum, weighted_sum,
};
use crate::separable::{
    across, blurred, blurred_pixel, can_blur, column_samples, down, row_samples, weights_fit,
};
use vstd::prelude::*;

verus! {

/// Whether every lane of `sums` is the weighted sum of the first `n` samples of its
/// channel.
spec fn are_weighted_sums(
    sums: Seq<F32>,
    samples: spec_fn(int) -> Seq<F32>,
    weights: Seq<F32>,
    n: nat,
) -> bool {
    &&& sums.len() == 4
    &&& forall|c: int| 0 <= c < 4 ==> (#[trigger] sums[c]) == weighted_sum(samples(c), weights, n)
}

/// One more sample in every lane.
fn add_sample(sums: F32x4, sample: F32x4, weight: F32) -> (r: F32x4)
    requires
        sums@.len() == 4,
        sample@.len() == 4,
    ensures
        r@.len() == 4,
        forall|c: int|
            0 <= c < 4 ==> (#[trigger] r@[c]) == sum(sums@[c], product(sample@[c], weight)),
{
    sums.plus(sample.times(F32x4::splat(weight)))
}

/// The sums over the total of the weights, in every lane. The lane of alpha keeps the
/// alpha of the pixel where that is not blurred.
fn normalize(sums: F32x4, total: F32, blur_alpha: bool, pixel: Pixel) -> (r: F32x4)
    requires
        sums@.len() == 4,
    ensures
        r@.len() == 4,
        forall|c: int|
            0 <= c < 4 ==> (#[trigger] r@[c]) == if c == 3 && !blur_alpha {
                of_int(pixel.a as int)
            } else {
                normalized(sums@[c], total, true)
            },
{
    let inverse = F32::from_bits(ONE_BITS).over(total);
    let v = sums.times(F32x4::splat(inverse));
    if !blur_alpha {
        let arr = v.to_array();
        F32x4::from_array([arr[0], arr[1], arr[2], F32::from_u8(pixel.a)])
    } else {
        v
    }
}

/// One pixel after the pass across the rows.
fn across_pixel(
    image: &[Vec<Pixel>],
    weights: &[F32],
    radius: i32,
    blur_alpha: bool,
    y: usize,
    x: usize,
) -> (s: F32x4)
    requires
        can_blur(image@, radius as int),
        weights_fit(weights@, radius as int),
        y < image@.len(),
        x < image@[0]@.len(),
    ensures
        s@.len() == 4,
        forall|c: int|
            0 <= c < 4 ==> (#[trigger] s@[c]) == across(
                pixels_of(image@),
                weights@,
                blur_alpha,
                true,
                y as int,
                x as int,
                c,
            ),
{
    let width = image[0].len();
    let mut sums = F32x4::splat(F32::from_bits(ZERO_BITS));
    let mut total = F32::from_bits(ZERO_BITS);
    let ghost pixels = pixels_of(image@);
    let ghost samples = |c: int| row_samples(pixels, weights@, y as int, x as int, c);
    assert(image@[0]@.len() <= image@[y as int]@.len());
    for j in 0..weights.len()
        invariant
            can_blur(image@, radius as int),
            weights_fit(weights@, radius as int),
            y < image@.len(),
            x < image@[0]@.len(),
            width == image@[0]@.len(),
            image@[0]@.len() <= image@[y as int]@.len(),
            pixels == pixels_of(image@),
            samples == (|c: int| row_samples(pixels, weights@, y as int, x as int, c)),
            are_weighted_sums(sums@, samples, weights@, j as nat),
            total == running_sum(weights@, j as nat),
    {
        let px = clamp_index(x, j as i32 - radius, width);
        let sample = image[y][px].to_simd();
        let weight = weights[j];
        let ghost before = sums@;
        sums = add_sample(sums, sample, weight);
        total = total.plus(weight);
        proof {
            assert forall|c: int| 0 <= c < 4 implies (#[trigger] sums@[c]) == weighted_sum(
                samples(c),
                weights@,
                (j + 1) as nat,
            ) by {
                assert(before[c] == weighted_sum(samples(c), weights@, j as nat));
                assert(samples(c)[j as int] == sample@[c]);
            }
        }
    }
    normalize(sums, total, blur_alpha, image[y][x])
}

/// Whether `row` is the row `y` of an image after the pass across the rows.
spec fn is_across_row(
    row: Seq<F32x4>,
    image: Seq<Seq<Pixel>>,
    weights: Seq<F32>,
    blur_alpha: bool,
    y: int,
) -> bool {
    &&& row.len() == image[0].len()
    &&& forall|x: int|
        0 <= x < row.len() ==> (#[trigger] row[x])@.len() == 4
    &&& forall|x: int, c: int|
        0 <= x < row.len() && 0 <= c < 4 ==> (#[trigger] row[x]@[c]) == across(
            image,
            weights,
            blur_alpha,
            true,
            y,
            x,
            c,
        )
}

/// Whether `rows` are the rows of an image after the pass across the rows.
spec fn are_across_rows(
    rows: Seq<Vec<F32x4>>,
    image: Seq<Seq<Pixel>>,
    weights: Seq<F32>,
    blur_alpha: bool,
) -> bool {
    &&& rows.len() == image.len()
    &&& forall|y: int|
        0 <= y < rows.len() ==> is_across_row(#[trigger] rows[y]@, image, weights, blur_alpha, y)
}

/// One row after the pass across the rows.
fn across_row(
    image: &[Vec<Pixel>],
    weights: &[F32],
    radius: i32,
    blur_alpha: bool,
    y: usize,
) -> (row: Vec<F32x4>)
    requires
        can_blur(image@, radius as int),
        weights_fit(weights@, radius as int),
        y < image@.len(),
    ensures
        is_across_row(row@, pixels_of(image@), weights@, blur_alpha, y as int),
{
    let width = image[0].len();
    let mut row: Vec<F32x4> = Vec::new();
    for x in 0..width
        invariant
            can_blur(image@, radius as int),
            weights_fit(weights@, radius as int),
            y < image@.len(),
            width == image@[0]@.len(),
            row@.len() == x,
            forall|i: int| 0 <= i < x ==> (#[trigger] row@[i])@.len() == 4,
            forall|i: int, c: int|
                0 <= i < x && 0 <= c < 4 ==> (#[trigger] row@[i]@[c]) == across(
                    pixels_of(image@),
                    weights@,
                    blur_alpha,
                    true,
                    y as int,
                    i,
                    c,
                ),
    {
        row.push(across_pixel(image, weights, radius, blur_alpha, y, x));
    }
    row
}

/// One pixel after both passes.
fn down_pixel(
    image: &[Vec<Pixel>],
    rows: &Vec<Vec<F32x4>>,
    weights: &[F32],
    radius: i32,
    blur_alpha: bool,
    y: usize,
    x: usize,
) -> (p: Pixel)
    requires
        can_blur(image@, radius as int),
        weights_fit(weights@, radius as int),
        are_across_rows(rows@, pixels_of(image@), weights@, blur_alpha),
        y < image@.len(),
        x < image@[0]@.len(),
    ensures
        p == blurred_pixel(pixels_of(image@), weights@, blur_alpha, true, y as int, x as int),
{
    let height = image.len();
    let mut sums = F32x4::splat(F32::from_bits(ZERO_BITS));
    let mut total = F32::from_bits(ZERO_BITS);
    let ghost pixels = pixels_of(image@);
    let ghost samples = |c: int|
        column_samples(pixels, weights@, blur_alpha, true, y as int, x as int, c);
    for j in 0..weights.len()
        invariant
            can_blur(image@, radius as int),
            weights_fit(weights@, radius as int),
            are_across_rows(rows@, pixels, weights@, blur_alpha),
            y < image@.len(),
            x < image@[0]@.len(),
            height == image@.len(),
            pixels == pixels_of(image@),
            samples == (|c: int|
                column_samples(pixels, weights@, blur_alpha, true, y as int, x as int, c)),
            are_weighted_sums(sums@, samples, weights@, j as nat),
            total == running_sum(weights@, j as nat),
    {
        let py = clamp_index(y, j as i32 - radius, height);
        assert(is_across_row(rows@[py as int]@, pixels, weights@, blur_alpha, py as int));
        let sample = rows[py][x];
        let weight = weights[j];
        let ghost before = sums@;
        sums = add_sample(sums, sample, weight);
        total = total.plus(weight);
        proof {
            assert forall|c: int| 0 <= c < 4 implies (#[trigger] sums@[c]) == weighted_sum(
                samples(c),
                weights@,
                (j + 1) as nat,
            ) by {
                assert(before[c] == weighted_sum(samples(c), weights@, j as nat));
                assert(samples(c)[j as int] == sample@[c]);
            }
        }
    }
    assert(image@[0]@.len() <= image@[y as int]@.len());
    let v = normalize(sums, total, blur_alpha, image[y][x]);
    let p = Pixel::from_simd(v);
    proof {
        assert forall|c: int| 0 <= c < 4 implies channel(p, c) == byte_of(
            down(pixels, weights@, blur_alpha, true, y as int, x as int, c),
        ) by {
            assert(sums@[c] == weighted_sum(samples(c), weights@, weights@.len()));
            assert(channel(p, c) == byte_of(v@[c]));
        }
        assert(p.r == channel(p, 0) && p.g == channel(p, 1) && p.b == channel(p, 2) && p.a
            == channel(p, 3));
    }
    p
}

/// One row of the blurred image.
fn down_row(
    image: &[Vec<Pixel>],
    rows: &Vec<Vec<F32x4>>,
    weights: &[F32],
    radius: i32,
    blur_alpha: bool,
    y: usize,
) -> (row: Vec<Pixel>)
    requires
        can_blur(image@, radius as int),
        weights_fit(weights@, radius as int),
        are_across_rows(rows@, pixels_of(image@), weights@, blur_alpha),
        y < image@.len(),
    ensures
        row@ == blurred(pixels_of(image@), weights@, blur_alpha, true)[y as int],
{
    let width = image[0].len();
    let mut row: Vec<Pixel> = Vec::new();
    for x in 0..width
        invariant
            can_blur(image@, radius as int),
            weights_fit(weights@, radius as int),
            are_across_rows(rows@, pixels_of(image@), weights@, blur_alpha),
            y < image@.len(),
            width == image@[0]@.len(),
            row@.len() == x,
            forall|i: int|
                0 <= i < x ==> row@[i] == blurred_pixel(
                    pixels_of(image@),
                    weights@,
                    blur_alpha,
                    true,
                    y as int,
                    i,
                ),
    {
        row.push(down_pixel(image, rows, weights, radius, blur_alpha, y, x));
    }
    assert(row@ =~= blurred(pixels_of(image@), weights@, blur_alpha, true)[y as int]);
    row
}

/// The blurred image, with the channels of a pixel in lanes and the rows of each pass
/// computed in parallel.
pub fn blur_in_lanes(
    image: &[Vec<Pixel>],
    weights: &[F32],
    radius: i32,
    blur_alpha: bool,
) -> (result: Vec<Vec<Pixel>>)
    requires
        can_blur(image@, radius as int),
        weights_fit(weights@, radius as int),
    ensures
        pixels_of(result@) == blurred(pixels_of(image@), weights@, blur_alpha, true),
{
    let height = image.len();
    let across = |y: usize| -> (row: Vec<F32x4>)
        requires
            y < image@.len(),
        ensures
            is_across_row(row@, pixels_of(image@), weights@, blur_alpha, y as int),
    {
        across_row(image, weights, radius, blur_alpha, y)
    };
    let rows: Vec<Vec<F32x4>> = map_indices(height, across);
    let down = |y: usize| -> (row: Vec<Pixel>)
        requires
            y < image@.len(),
        ensures
            row@ == blurred(pixels_of(image@), weights@, blur_alpha, true)[y as int],
    {
        down_row(image, &rows, weights, radius, blur_alpha, y)
    };
    let result: Vec<Vec<Pixel>> = map_indices(height, down);
    assert(pixels_of(result@) =~= blurred(pixels_of(image@), weights@, blur_alpha, true));
    result
}

} // verus!
