//! The blurs with a fixed window as formulas over the pixels around a pixel.

use crate::laws::law_alpha_is_kept;
use crate::pixel::{channel, Pixel};
use crate::sampling::{law_tap_is_nearest, pixels_of};
use crate::window::{
    gaussian_blur_3x3, gaussian_blur_5x5, numerators_3x3, numerators_5x5, window_weights,
};
use crate::window_laws::{
    law_3x3_blur_is_exact, law_5x5_blur_is_exact, window_total, window_value,
};
use crate::window_mean::are_nearest_places;
use vstd::prelude::*;

verus! {

/// One more value of a window, by its factor and by the row and the column that are read there.
proof fn lemma_window_step(
    image: Seq<Seq<Pixel>>,
    numerators: Seq<u8>,
    half: int,
    y: int,
    x: int,
    c: int,
    rows: Seq<int>,
    columns: Seq<int>,
    j: int,
    i: int,
    k: nat,
    factor: int,
)
    requires
        half >= 0,
        k == j * (2 * half + 1) + i,
        numerators[k as int] == factor,
        0 <= j < 2 * half + 1,
        0 <= i < 2 * half + 1,
        are_nearest_places(rows, y, image.len() as int, (2 * half + 1) as nat),
        are_nearest_places(columns, x, image[0].len() as int, (2 * half + 1) as nat),
    ensures
        window_total(image, numerators, half, y, x, c, k + 1) == window_total(
            image,
            numerators,
            half,
            y,
            x,
            c,
            k,
        ) + factor * channel(image[rows[j]][columns[i]], c),
{
    let side = 2 * half + 1;
    vstd::arithmetic::div_mod::lemma_fundamental_div_mod_converse(j * side + i, side, j, i);
    assert(side / 2 == half);
    law_tap_is_nearest(y, j - half, image.len() as int, rows[j]);
    law_tap_is_nearest(x, i - half, image[0].len() as int, columns[i]);
    let v = window_value(image, half, y, x, c, k as int) as int;
    assert(v * factor == factor * v) by (nonlinear_arith);
}

/// The three by three blur: a sixteenth of once the corners, twice the sides and four times the
/// middle, cut off. Rows and columns outside count as the nearest ones inside. Alpha is kept where
/// it is not blurred.
pub proof fn law_3x3_blur_formula(
    image: &[Vec<Pixel>],
    blur_alpha: bool,
    result: Vec<Vec<Pixel>>,
    y: int,
    x: int,
    c: int,
    rows: Seq<int>,
    columns: Seq<int>,
)
    requires
        call_ensures(gaussian_blur_3x3, (image, blur_alpha), result),
        0 <= y < image@.len(),
        0 <= x < image@[0]@.len(),
        0 <= c < 3 || c == 3 && blur_alpha,
        are_nearest_places(rows, y, image@.len() as int, 3),
        are_nearest_places(columns, x, image@[0]@.len() as int, 3),
    ensures
        result@.len() == image@.len(),
        result@[y]@.len() == image@[0]@.len(),
        !blur_alpha ==> result@[y]@[x].a == image@[y]@[x].a,
        ({
            let v = |j: int, i: int| channel(image@[rows[j]]@[columns[i]], c) as int;
            let sum = v(0, 0) + 2 * v(0, 1) + v(0, 2) + 2 * v(1, 0) + 4 * v(1, 1) + 2 * v(1, 2) + v(
                2,
                0,
            ) + 2 * v(2, 1) + v(2, 2);
            let r = channel(result@[y]@[x], c);
            16 * r <= sum < 16 * (r + 1)
        }),
{
    let pixels = pixels_of(image@);
    assert(pixels_of(result@).len() == image@.len());
    assert(pixels_of(result@)[y] == result@[y]@);
    law_3x3_blur_is_exact(pixels, blur_alpha, y, x, c);
    let k = numerators_3x3();
    if !blur_alpha {
        law_alpha_is_kept(pixels, window_weights(numerators_3x3(), 16), true, 1, y, x);
    }
    assert(window_total(pixels, k, 1, y, x, c, 0) == 0);
    assert forall|j: int| 0 <= j < 3 implies pixels[#[trigger] rows[j]] == image@[rows[j]]@ by {}
    lemma_window_step(pixels, k, 1, y, x, c, rows, columns, 0, 0, 0, 1);
    lemma_window_step(pixels, k, 1, y, x, c, rows, columns, 0, 1, 1, 2);
    lemma_window_step(pixels, k, 1, y, x, c, rows, columns, 0, 2, 2, 1);
    lemma_window_step(pixels, k, 1, y, x, c, rows, columns, 1, 0, 3, 2);
    lemma_window_step(pixels, k, 1, y, x, c, rows, columns, 1, 1, 4, 4);
    lemma_window_step(pixels, k, 1, y, x, c, rows, columns, 1, 2, 5, 2);
    lemma_window_step(pixels, k, 1, y, x, c, rows, columns, 2, 0, 6, 1);
    lemma_window_step(pixels, k, 1, y, x, c, rows, columns, 2, 1, 7, 2);
    lemma_window_step(pixels, k, 1, y, x, c, rows, columns, 2, 2, 8, 1);
}

/// The five by five blur: a 273rd of the pixels around, times 41 for the middle, 26, 16, 7, 4 and
/// 1 going outwards, cut off; where the division leaves no remainder, rounding may take one step.
/// Rows and columns outside count as the nearest ones inside. Alpha is kept where it is not
/// blurred.
pub proof fn law_5x5_blur_formula(
    image: &[Vec<Pixel>],
    blur_alpha: bool,
    result: Vec<Vec<Pixel>>,
    y: int,
    x: int,
    c: int,
    rows: Seq<int>,
    columns: Seq<int>,
)
    requires
        call_ensures(gaussian_blur_5x5, (image, blur_alpha), result),
        0 <= y < image@.len(),
        0 <= x < image@[0]@.len(),
        0 <= c < 3 || c == 3 && blur_alpha,
        are_nearest_places(rows, y, image@.len() as int, 5),
        are_nearest_places(columns, x, image@[0]@.len() as int, 5),
    ensures
        result@.len() == image@.len(),
        result@[y]@.len() == image@[0]@.len(),
        !blur_alpha ==> result@[y]@[x].a == image@[y]@[x].a,
        ({
            let v = |j: int, i: int| channel(image@[rows[j]]@[columns[i]], c) as int;
            let corners = v(0, 0) + v(0, 4) + v(4, 0) + v(4, 4);
            let beside_corners = v(0, 1) + v(0, 3) + v(1, 0) + v(1, 4) + v(3, 0) + v(3, 4) + v(4, 1)
                + v(4, 3);
            let far = v(0, 2) + v(2, 0) + v(2, 4) + v(4, 2);
            let diagonal = v(1, 1) + v(1, 3) + v(3, 1) + v(3, 3);
            let near = v(1, 2) + v(2, 1) + v(2, 3) + v(3, 2);
            let sum = corners + 4 * beside_corners + 7 * far + 16 * diagonal + 26 * near + 41 * v(
                2,
                2,
            );
            let r = channel(result@[y]@[x], c);
            273 * r <= sum <= 273 * (r + 1)
        }),
{
    let pixels = pixels_of(image@);
    assert(pixels_of(result@).len() == image@.len());
    assert(pixels_of(result@)[y] == result@[y]@);
    law_5x5_blur_is_exact(pixels, blur_alpha, y, x, c);
    let k = numerators_5x5();
    if !blur_alpha {
        law_alpha_is_kept(pixels, window_weights(numerators_5x5(), 273), true, 2, y, x);
    }
    assert(window_total(pixels, k, 2, y, x, c, 0) == 0);
    assert forall|j: int| 0 <= j < 5 implies pixels[#[trigger] rows[j]] == image@[rows[j]]@ by {}
    lemma_window_step(pixels, k, 2, y, x, c, rows, columns, 0, 0, 0, 1);
    lemma_window_step(pixels, k, 2, y, x, c, rows, columns, 0, 1, 1, 4);
    lemma_window_step(pixels, k, 2, y, x, c, rows, columns, 0, 2, 2, 7);
    lemma_window_step(pixels, k, 2, y, x, c, rows, columns, 0, 3, 3, 4);
    lemma_window_step(pixels, k, 2, y, x, c, rows, columns, 0, 4, 4, 1);
    lemma_window_step(pixels, k, 2, y, x, c, rows, columns, 1, 0, 5, 4);
    lemma_window_step(pixels, k, 2, y, x, c, rows, columns, 1, 1, 6, 16);
    lemma_window_step(pixels, k, 2, y, x, c, rows, columns, 1, 2, 7, 26);
    lemma_window_step(pixels, k, 2, y, x, c, rows, columns, 1, 3, 8, 16);
    lemma_window_step(pixels, k, 2, y, x, c, rows, columns, 1, 4, 9, 4);
    lemma_window_step(pixels, k, 2, y, x, c, rows, columns, 2, 0, 10, 7);
    lemma_window_step(pixels, k, 2, y, x, c, rows, columns, 2, 1, 11, 26);
    lemma_window_step(pixels, k, 2, y, x, c, rows, columns, 2, 2, 12, 41);
    lemma_window_step(pixels, k, 2, y, x, c, rows, columns, 2, 3, 13, 26);
    lemma_window_step(pixels, k, 2, y, x, c, rows, columns, 2, 4, 14, 7);
    lemma_window_step(pixels, k, 2, y, x, c, rows, columns, 3, 0, 15, 4);
    lemma_window_step(pixels, k, 2, y, x, c, rows, columns, 3, 1, 16, 16);
    lemma_window_step(pixels, k, 2, y, x, c, rows, columns, 3, 2, 17, 26);
    lemma_window_step(pixels, k, 2, y, x, c, rows, columns, 3, 3, 18, 16);
    lemma_window_step(pixels, k, 2, y, x, c, rows, columns, 3, 4, 19, 4);
    lemma_window_step(pixels, k, 2, y, x, c, rows, columns, 4, 0, 20, 1);
    lemma_window_step(pixels, k, 2, y, x, c, rows, columns, 4, 1, 21, 4);
    lemma_window_step(pixels, k, 2, y, x, c, rows, columns, 4, 2, 22, 7);
    lemma_window_step(pixels, k, 2, y, x, c, rows, columns, 4, 3, 23, 4);
    lemma_window_step(pixels, k, 2, y, x, c, rows, columns, 4, 4, 24, 1);
}

} // verus!
