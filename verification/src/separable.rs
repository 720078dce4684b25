//! The blur in two passes: across the rows, then down the columns. The products and sums of a
//! channel are cut off, so that their rounding makes no pixel brighter.

use crate::float::convert::{byte_of, of_int};
use crate::float::numbers::{zero, ZERO_BITS};
use crate::float::repr::F32;
use crate::kernel::valid_radius;
use crate::parallel::map_indices;
use crate::pixel::{channel, Pixel};
use crate::sampling::{
    clamp_index, covers_width, gathered, normalized, pixels_of, reach, running_sum, tap,
    weighted_sum_cut,
};
use vstd::prelude::*;

verus! {

/// The samples that the pass across the rows reads for one pixel.
pub open spec fn row_samples(
    image: Seq<Seq<Pixel>>,
    weights: Seq<F32>,
    y: int,
    x: int,
    c: int,
) -> Seq<F32> {
    Seq::new(
        weights.len(),
        |j: int|
            of_int(
                channel(
                    image[y][tap(x, j - reach(weights), image[0].len() as int)],
                    c,
                ) as int,
            ),
    )
}

/// One channel of one pixel after the pass across the rows.
pub open spec fn across(
    image: Seq<Seq<Pixel>>,
    weights: Seq<F32>,
    blur_alpha: bool,
    lanes: bool,
    y: int,
    x: int,
    c: int,
) -> F32 {
    if c == 3 && !blur_alpha {
        of_int(image[y][x].a as int)
    } else {
        normalized(
            gathered(row_samples(image, weights, y, x, c), weights, weights.len(), lanes),
            running_sum(weights, weights.len()),
            lanes,
        )
    }
}

/// The samples that the pass down the columns reads for one pixel.
pub open spec fn column_samples(
    image: Seq<Seq<Pixel>>,
    weights: Seq<F32>,
    blur_alpha: bool,
    lanes: bool,
    y: int,
    x: int,
    c: int,
) -> Seq<F32> {
    Seq::new(
        weights.len(),
        |j: int|
            across(
                image,
                weights,
                blur_alpha,
                lanes,
                tap(y, j - reach(weights), image.len() as int),
                x,
                c,
            ),
    )
}

/// One channel of one pixel after both passes.
pub open spec fn down(
    image: Seq<Seq<Pixel>>,
    weights: Seq<F32>,
    blur_alpha: bool,
    lanes: bool,
    y: int,
    x: int,
    c: int,
) -> F32 {
    if c == 3 && !blur_alpha {
        of_int(image[y][x].a as int)
    } else {
        normalized(
            gathered(
                column_samples(image, weights, blur_alpha, lanes, y, x, c),
                weights,
                weights.len(),
                lanes,
            ),
            running_sum(weights, weights.len()),
            lanes,
        )
    }
}

/// One pixel of the blurred image.
pub open spec fn blurred_pixel(
    image: Seq<Seq<Pixel>>,
    weights: Seq<F32>,
    blur_alpha: bool,
    lanes: bool,
    y: int,
    x: int,
) -> Pixel {
    Pixel {
        r: byte_of(down(image, weights, blur_alpha, lanes, y, x, 0)),
        g: byte_of(down(image, weights, blur_alpha, lanes, y, x, 1)),
        b: byte_of(down(image, weights, blur_alpha, lanes, y, x, 2)),
        a: byte_of(down(image, weights, blur_alpha, lanes, y, x, 3)),
    }
}

/// The blurred image. It is as high as the image, and as wide as its first row.
pub open spec fn blurred(
    image: Seq<Seq<Pixel>>,
    weights: Seq<F32>,
    blur_alpha: bool,
    lanes: bool,
) -> Seq<Seq<Pixel>> {
    Seq::new(
        image.len(),
        |y: int|
            Seq::new(
                image[0].len(),
                |x: int| blurred_pixel(image, weights, blur_alpha, lanes, y, x),
            ),
    )
}

/// Whether an image can be blurred with a kernel of this radius: no row ends before the
/// first one, and every index that a pass computes fits into a 32-bit integer.
pub open spec fn can_blur(image: Seq<Vec<Pixel>>, radius: int) -> bool {
    &&& image.len() > 0
    &&& covers_width(image)
    &&& image.len() <= i32::MAX
    &&& image[0]@.len() <= i32::MAX
    &&& image.len() - 1 + radius <= i32::MAX
    &&& image[0]@.len() - 1 + radius <= i32::MAX
}

/// Whether `weights` are those of a kernel that reaches `radius` to either side.
pub open spec fn weights_fit(weights: Seq<F32>, radius: int) -> bool {
    valid_radius(radius) && weights.len() == 2 * radius + 1
}

/// One pixel after the pass across the rows.
fn across_pixel(
    image: &[Vec<Pixel>],
    weights: &[F32],
    radius: i32,
    blur_alpha: bool,
    y: usize,
    x: usize,
) -> (s: [F32; 4])
    requires
        can_blur(image@, radius as int),
        weights_fit(weights@, radius as int),
        y < image@.len(),
        x < image@[0]@.len(),
    ensures
        forall|c: int|
            0 <= c < 4 ==> s@[c] == across(
                pixels_of(image@),
                weights@,
                blur_alpha,
                false,
                y as int,
                x as int,
                c,
            ),
{
    let width = image[0].len();
    let mut r = F32::from_bits(ZERO_BITS);
    let mut g = F32::from_bits(ZERO_BITS);
    let mut b = F32::from_bits(ZERO_BITS);
    let mut a = F32::from_bits(ZERO_BITS);
    let mut total = F32::from_bits(ZERO_BITS);
    let ghost pixels = pixels_of(image@);
    let ghost samples = |c: int| row_samples(pixels, weights@, y as int, x as int, c);
    for j in 0..weights.len()
        invariant
            can_blur(image@, radius as int),
            weights_fit(weights@, radius as int),
            y < image@.len(),
            x < image@[0]@.len(),
            width == image@[0]@.len(),
            pixels == pixels_of(image@),
            samples == (|c: int| row_samples(pixels, weights@, y as int, x as int, c)),
            r == weighted_sum_cut(samples(0), weights@, j as nat),
            g == weighted_sum_cut(samples(1), weights@, j as nat),
            b == weighted_sum_cut(samples(2), weights@, j as nat),
            a == if blur_alpha {
                weighted_sum_cut(samples(3), weights@, j as nat)
            } else {
                zero()
            },
            total == running_sum(weights@, j as nat),
    {
        let px = clamp_index(x, j as i32 - radius, width);
        assert(image@[0]@.len() <= image@[y as int]@.len());
        let pixel = image[y][px].to_f32_array();
        let weight = weights[j];
        r = r.plus_cut(pixel[0].times_cut(weight));
        g = g.plus_cut(pixel[1].times_cut(weight));
        b = b.plus_cut(pixel[2].times_cut(weight));
        if blur_alpha {
            a = a.plus_cut(pixel[3].times_cut(weight));
        }
        total = total.plus(weight);
    }
    let alpha = if blur_alpha {
        a.over(total)
    } else {
        assert(image@[0]@.len() <= image@[y as int]@.len());
        F32::from_u8(image[y][x].a)
    };
    [r.over(total), g.over(total), b.over(total), alpha]
}

/// One row after the pass across the rows.
fn across_row(
    image: &[Vec<Pixel>],
    weights: &[F32],
    radius: i32,
    blur_alpha: bool,
    y: usize,
) -> (row: Vec<[F32; 4]>)
    requires
        can_blur(image@, radius as int),
        weights_fit(weights@, radius as int),
        y < image@.len(),
    ensures
        is_across_row(row@, pixels_of(image@), weights@, blur_alpha, y as int),
{
    let width = image[0].len();
    let mut row: Vec<[F32; 4]> = Vec::new();
    for x in 0..width
        invariant
            can_blur(image@, radius as int),
            weights_fit(weights@, radius as int),
            y < image@.len(),
            width == image@[0]@.len(),
            row@.len() == x,
            forall|i: int, c: int|
                0 <= i < x && 0 <= c < 4 ==> (#[trigger] row@[i]@[c]) == across(
                    pixels_of(image@),
                    weights@,
                    blur_alpha,
                    false,
                    y as int,
                    i,
                    c,
                ),
    {
        row.push(across_pixel(image, weights, radius, blur_alpha, y, x));
    }
    row
}

/// Whether `row` is the row `y` of an image after the pass across the rows.
spec fn is_across_row(
    row: Seq<[F32; 4]>,
    image: Seq<Seq<Pixel>>,
    weights: Seq<F32>,
    blur_alpha: bool,
    y: int,
) -> bool {
    &&& row.len() == image[0].len()
    &&& forall|x: int, c: int|
        0 <= x < row.len() && 0 <= c < 4 ==> (#[trigger] row[x]@[c]) == across(
            image,
            weights,
            blur_alpha,
            false,
            y,
            x,
            c,
        )
}

/// Whether `rows` are the rows of an image after the pass across the rows.
spec fn are_across_rows(
    rows: Seq<Vec<[F32; 4]>>,
    image: Seq<Seq<Pixel>>,
    weights: Seq<F32>,
    blur_alpha: bool,
) -> bool {
    &&& rows.len() == image.len()
    &&& forall|y: int|
        0 <= y < rows.len() ==> is_across_row(#[trigger] rows[y]@, image, weights, blur_alpha, y)
}

/// One pixel after both passes.
fn down_pixel(
    image: &[Vec<Pixel>],
    rows: &Vec<Vec<[F32; 4]>>,
    weights: &[F32],
    radius: i32,
    blur_alpha: bool,
    y: usize,
    x: usize,
) -> (p: Pixel)
    requires
        can_blur(image@, radius as int),
        weights_fit(weights@, radius as int),
        are_across_rows(rows@, pixels_of(image@), weights@, blur_alpha),
        y < image@.len(),
        x < image@[0]@.len(),
    ensures
        p == blurred_pixel(pixels_of(image@), weights@, blur_alpha, false, y as int, x as int),
{
    let height = image.len();
    let mut r = F32::from_bits(ZERO_BITS);
    let mut g = F32::from_bits(ZERO_BITS);
    let mut b = F32::from_bits(ZERO_BITS);
    let mut a = F32::from_bits(ZERO_BITS);
    let mut total = F32::from_bits(ZERO_BITS);
    let ghost pixels = pixels_of(image@);
    let ghost samples = |c: int|
        column_samples(pixels, weights@, blur_alpha, false, y as int, x as int, c);
    for j in 0..weights.len()
        invariant
            can_blur(image@, radius as int),
            weights_fit(weights@, radius as int),
            are_across_rows(rows@, pixels, weights@, blur_alpha),
            y < image@.len(),
            x < image@[0]@.len(),
            height == image@.len(),
            pixels == pixels_of(image@),
            samples == (|c: int|
                column_samples(pixels, weights@, blur_alpha, false, y as int, x as int, c)),
            r == weighted_sum_cut(samples(0), weights@, j as nat),
            g == weighted_sum_cut(samples(1), weights@, j as nat),
            b == weighted_sum_cut(samples(2), weights@, j as nat),
            a == if blur_alpha {
                weighted_sum_cut(samples(3), weights@, j as nat)
            } else {
                zero()
            },
            total == running_sum(weights@, j as nat),
    {
        let py = clamp_index(y, j as i32 - radius, height);
        assert(is_across_row(rows@[py as int]@, pixels, weights@, blur_alpha, py as int));
        let pixel = rows[py][x];
        let weight = weights[j];
        r = r.plus_cut(pixel[0].times_cut(weight));
        g = g.plus_cut(pixel[1].times_cut(weight));
        b = b.plus_cut(pixel[2].times_cut(weight));
        if blur_alpha {
            a = a.plus_cut(pixel[3].times_cut(weight));
        }
        total = total.plus(weight);
    }
    let alpha = if blur_alpha {
        a.over(total)
    } else {
        assert(image@[0]@.len() <= image@[y as int]@.len());
        F32::from_u8(image[y][x].a)
    };
    let arr: [F32; 4] = [r.over(total), g.over(total), b.over(total), alpha];
    let p = Pixel::from_f32_array(arr);
    proof {
        assert(channel(p, 0) == byte_of(arr@[0]));
        assert(channel(p, 1) == byte_of(arr@[1]));
        assert(channel(p, 2) == byte_of(arr@[2]));
        assert(channel(p, 3) == byte_of(arr@[3]));
    }
    p
}

/// One row of the blurred image.
fn down_row(
    image: &[Vec<Pixel>],
    rows: &Vec<Vec<[F32; 4]>>,
    weights: &[F32],
    radius: i32,
    blur_alpha: bool,
    y: usize,
) -> (row: Vec<Pixel>)
    requires
        can_blur(image@, radius as int),
        weights_fit(weights@, radius as int),
        are_across_rows(rows@, pixels_of(image@), weights@, blur_alpha),
        y < image@.len(),
    ensures
        row@ == blurred(pixels_of(image@), weights@, blur_alpha, false)[y as int],
{
    let width = image[0].len();
    let mut row: Vec<Pixel> = Vec::new();
    for x in 0..width
        invariant
            can_blur(image@, radius as int),
            weights_fit(weights@, radius as int),
            are_across_rows(rows@, pixels_of(image@), weights@, blur_alpha),
            y < image@.len(),
            width == image@[0]@.len(),
            row@.len() == x,
            forall|i: int|
                0 <= i < x ==> row@[i] == blurred_pixel(
                    pixels_of(image@),
                    weights@,
                    blur_alpha,
                    false,
                    y as int,
                    i,
                ),
    {
        row.push(down_pixel(image, rows, weights, radius, blur_alpha, y, x));
    }
    assert(row@ =~= blurred(pixels_of(image@), weights@, blur_alpha, false)[y as int]);
    row
}

/// The blurred image, computed row by row on the calling thread.
pub fn blur_sequentially(
    image: &[Vec<Pixel>],
    weights: &[F32],
    radius: i32,
    blur_alpha: bool,
) -> (result: Vec<Vec<Pixel>>)
    requires
        can_blur(image@, radius as int),
        weights_fit(weights@, radius as int),
    ensures
        pixels_of(result@) == blurred(pixels_of(image@), weights@, blur_alpha, false),
{
    let height = image.len();
    let mut rows: Vec<Vec<[F32; 4]>> = Vec::new();
    for y in 0..height
        invariant
            can_blur(image@, radius as int),
            weights_fit(weights@, radius as int),
            height == image@.len(),
            rows@.len() == y,
            forall|i: int|
                0 <= i < y ==> is_across_row(
                    #[trigger] rows@[i]@,
                    pixels_of(image@),
                    weights@,
                    blur_alpha,
                    i,
                ),
    {
        rows.push(across_row(image, weights, radius, blur_alpha, y));
    }
    let ghost want = blurred(pixels_of(image@), weights@, blur_alpha, false);
    let mut result: Vec<Vec<Pixel>> = Vec::new();
    for y in 0..height
        invariant
            can_blur(image@, radius as int),
            weights_fit(weights@, radius as int),
            are_across_rows(rows@, pixels_of(image@), weights@, blur_alpha),
            height == image@.len(),
            want == blurred(pixels_of(image@), weights@, blur_alpha, false),
            result@.len() == y,
            forall|i: int| 0 <= i < y ==> (#[trigger] result@[i]@) == want[i],
    {
        result.push(down_row(image, &rows, weights, radius, blur_alpha, y));
    }
    assert(pixels_of(result@) =~= want);
    result
}

/// The blurred image, with the rows of each pass computed in parallel.
pub fn blur_in_parallel(
    image: &[Vec<Pixel>],
    weights: &[F32],
    radius: i32,
    blur_alpha: bool,
) -> (result: Vec<Vec<Pixel>>)
    requires
        can_blur(image@, radius as int),
        weights_fit(weights@, radius as int),
    ensures
        pixels_of(result@) == blurred(pixels_of(image@), weights@, blur_alpha, false),
{
    let height = image.len();
    let across = |y: usize| -> (row: Vec<[F32; 4]>)
        requires
            y < image@.len(),
        ensures
            is_across_row(row@, pixels_of(image@), weights@, blur_alpha, y as int),
    {
        across_row(image, weights, radius, blur_alpha, y)
    };
    let rows: Vec<Vec<[F32; 4]>> = map_indices(height, across);
    let down = |y: usize| -> (row: Vec<Pixel>)
        requires
            y < image@.len(),
        ensures
            row@ == blurred(pixels_of(image@), weights@, blur_alpha, false)[y as int],
    {
        down_row(image, &rows, weights, radius, blur_alpha, y)
    };
    let result: Vec<Vec<Pixel>> = map_indices(height, down);
    assert(pixels_of(result@) =~= blurred(pixels_of(image@), weights@, blur_alpha, false));
    result
}

} // verus!
