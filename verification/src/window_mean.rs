//! What a blurred pixel is, in terms of the pixels next to it.

use crate::accuracy::{
    are_ordinary, blur_slack, law_blur_is_near_mean, row_dot, window_dot, within,
};
use crate::brightness::exact_sum;
use crate::float::convert::byte_of;
use crate::float::repr::{grid, F32};
use crate::laws::{agree_near, law_blur_is_local};
use crate::pixel::{channel, Pixel};
use crate::sampling::{law_tap_is_nearest, law_tap_stays_near, reach, tap};
use crate::separable::{blurred, down};
use crate::sums::{lemma_total_of_equal_terms, total};
use crate::window::{window_samples, windowed_image};
use vstd::arithmetic::power2::{lemma_pow2_pos, pow2};
use vstd::prelude::*;

verus! {

/// Whether `places` are, for each of the weights, the index inside the range that is nearest to
/// the one as far from `at` as the weight is from the middle.
pub open spec fn are_nearest_places(places: Seq<int>, at: int, len: int, n: nat) -> bool {
    &&& places.len() == n
    &&& forall|j: int|
        0 <= j < n ==> 0 <= #[trigger] places[j] < len && {
            let wanted = at + j - n as int / 2;
            &&& wanted < 0 ==> places[j] == 0
            &&& 0 <= wanted < len ==> places[j] == wanted
            &&& wanted >= len ==> places[j] == len - 1
        }
}

proof fn lemma_places(places: Seq<int>, at: int, len: int, n: nat, j: int)
    requires
        are_nearest_places(places, at, len, n),
        0 <= j < n,
        len > 0,
    ensures
        tap(at, j - n as int / 2, len) == places[j],
{
    law_tap_is_nearest(at, j - n as int / 2, len, places[j]);
}

proof fn lemma_row_total(
    image: Seq<Seq<Pixel>>,
    weights: Seq<F32>,
    y: int,
    x: int,
    c: int,
    columns: Seq<int>,
    n: nat,
)
    requires
        n <= weights.len(),
        image[0].len() > 0,
        are_nearest_places(columns, x, image[0].len() as int, weights.len()),
    ensures
        row_dot(image, weights, y, x, c, n) == total(
            |i: int| grid(weights[i].magnitude()) * channel(image[y][columns[i]], c),
            n,
        ),
    decreases n,
{
    if n > 0 {
        lemma_row_total(image, weights, y, x, c, columns, (n - 1) as nat);
        lemma_places(columns, x, image[0].len() as int, weights.len(), n - 1);
        let v = channel(image[y][columns[n - 1]], c) as nat;
        let w = grid(weights[n - 1].magnitude());
        assert(v * w == w * v) by (nonlinear_arith);
    }
}

proof fn lemma_window_total(
    image: Seq<Seq<Pixel>>,
    weights: Seq<F32>,
    y: int,
    x: int,
    c: int,
    rows: Seq<int>,
    columns: Seq<int>,
    n: nat,
)
    requires
        n <= weights.len(),
        image.len() > 0,
        image[0].len() > 0,
        are_nearest_places(rows, y, image.len() as int, weights.len()),
        are_nearest_places(columns, x, image[0].len() as int, weights.len()),
    ensures
        window_dot(image, weights, y, x, c, n) == total(
            |j: int|
                grid(weights[j].magnitude()) * total(
                    |i: int| grid(weights[i].magnitude()) * channel(image[rows[j]][columns[i]], c),
                    weights.len(),
                ),
            n,
        ),
    decreases n,
{
    if n > 0 {
        lemma_window_total(image, weights, y, x, c, rows, columns, (n - 1) as nat);
        lemma_places(rows, y, image.len() as int, weights.len(), n - 1);
        let row = rows[n - 1];
        lemma_row_total(image, weights, row, x, c, columns, weights.len());
        let d = row_dot(image, weights, row, x, c, weights.len());
        let w = grid(weights[n - 1].magnitude());
        assert(d * w == w * d) by (nonlinear_arith);
        lemma_total_of_equal_terms(
            |i: int| grid(weights[i].magnitude()) * channel(image[row][columns[i]], c),
            |i: int| grid(weights[i].magnitude()) * channel(image[rows[n - 1]][columns[i]], c),
            weights.len(),
        );
    }
}

/// A blurred channel is the mean of the pixels around it, each with the product of the weights of
/// its row and its column, cut off to a whole number. Rows and columns outside count as the
/// nearest ones inside. The error is at most `blur_slack / 2^24`, apart from the fraction.
pub proof fn law_blur_is_mean_of_window(
    image: Seq<Seq<Pixel>>,
    weights: Seq<F32>,
    blur_alpha: bool,
    lanes: bool,
    y: int,
    x: int,
    c: int,
    rows: Seq<int>,
    columns: Seq<int>,
)
    requires
        are_ordinary(weights),
        0 <= y < image.len(),
        0 <= x < image[0].len(),
        0 <= c < 3 || c == 3 && blur_alpha,
        are_nearest_places(rows, y, image.len() as int, weights.len()),
        are_nearest_places(columns, x, image[0].len() as int, weights.len()),
    ensures
        ({
            let n = weights.len();
            let t = total(|i: int| grid(weights[i].magnitude()) as int, n);
            let sum = total(
                |j: int|
                    grid(weights[j].magnitude()) * total(
                        |i: int|
                            grid(weights[i].magnitude()) * channel(image[rows[j]][columns[i]], c),
                        n,
                    ),
                n,
            );
            let r = channel(blurred(image, weights, blur_alpha, lanes)[y][x], c);
            let slack = 768 * (8 * n + 12);
            &&& 0x100_0000 * (r * (t * t)) <= 0x100_0000 * sum + slack * (t * t)
            &&& r < 255 ==> 0x100_0000 * sum < 0x100_0000 * ((r + 1) * (t * t)) + slack * (t * t)
                + 1
        }),
{
    let n = weights.len();
    let t = total(|i: int| grid(weights[i].magnitude()) as int, n);
    lemma_exact_sum_is_total(weights, n);
    let unit = pow2(149) as int;
    let tt = t * t;
    law_blur_is_near_mean(image, weights, blur_alpha, lanes, y, x, c);
    lemma_window_total(image, weights, y, x, c, rows, columns, n);
    let sum = window_dot(image, weights, y, x, c, n) as int;
    let a = down(image, weights, blur_alpha, lanes, y, x, c);
    let q = grid(a.magnitude()) as int;
    lemma_pow2_pos(149);
    lemma_pow2_pos(148);
    reveal(byte_of);
    let w = q / unit;
    vstd::arithmetic::div_mod::lemma_fundamental_div_mod(q, unit);
    let r = channel(blurred(image, weights, blur_alpha, lanes)[y][x], c) as int;
    let slack = blur_slack(n);
    assert(r == if w > 255 {
        255
    } else {
        w
    });
    assert(w >= 0) by (nonlinear_arith)
        requires
            q == unit * w + q % unit,
            0 <= q % unit < unit,
            q >= 0,
            unit > 0,
    ;
    assert(tt > 0) by (nonlinear_arith)
        requires
            tt == t * t,
            t > 0,
    ;
    lemma_floor_of_mean(q, w, r, tt, sum, slack, unit);
}

proof fn lemma_floor_of_mean(
    q: int,
    w: int,
    r: int,
    tt: int,
    sum: int,
    slack: int,
    unit: int,
)
    requires
        unit > 0,
        tt > 0,
        unit * w <= q < unit * w + unit,
        w >= 0,
        r == (if w > 255 {
            255
        } else {
            w
        }),
        within(q * tt, unit * sum, slack * (unit * tt)),
    ensures
        0x100_0000 * (r * tt) <= 0x100_0000 * sum + slack * tt,
        r < 255 ==> 0x100_0000 * sum < 0x100_0000 * ((r + 1) * tt) + slack * tt + 1,
{
    assert(unit * r <= q) by (nonlinear_arith)
        requires
            r <= w,
            unit * w <= q,
            unit > 0,
    ;
    assert(0x100_0000 * (r * tt) <= 0x100_0000 * sum + slack * tt) by (nonlinear_arith)
        requires
            unit * r <= q,
            0x100_0000 * (q * tt) <= 0x100_0000 * (unit * sum) + slack * (unit * tt),
            unit > 0,
            tt > 0,
    {
        assert((unit * r) * tt <= q * tt);
        assert(unit * (0x100_0000 * (r * tt)) == 0x100_0000 * ((unit * r) * tt));
        assert(unit * (0x100_0000 * sum + slack * tt) == 0x100_0000 * (unit * sum) + slack * (unit
            * tt));
    }
    if r < 255 {
        assert(0x100_0000 * sum <= 0x100_0000 * ((r + 1) * tt) + slack * tt) by (nonlinear_arith)
            requires
                q < unit * r + unit,
                0x100_0000 * (unit * sum) <= 0x100_0000 * (q * tt) + slack * (unit * tt),
                unit > 0,
                tt > 0,
        {
            assert(q * tt <= (unit * r + unit) * tt);
            assert((unit * r + unit) * tt == unit * ((r + 1) * tt));
            assert(unit * (0x100_0000 * sum) == 0x100_0000 * (unit * sum));
            assert(unit * (0x100_0000 * ((r + 1) * tt) + slack * tt) == 0x100_0000 * (unit * ((r
                + 1) * tt)) + slack * (unit * tt));
        }
    }
}

proof fn lemma_exact_sum_is_total(weights: Seq<F32>, n: nat)
    ensures
        exact_sum(weights, n) == total(|i: int| grid(weights[i].magnitude()) as int, n),
    decreases n,
{
    if n > 0 {
        lemma_exact_sum_is_total(weights, (n - 1) as nat);
    }
}

/// Whether two images of one size agree in the pixels at most `radius` rows and columns away from
/// a place.
pub open spec fn agree_within(
    a: Seq<Seq<Pixel>>,
    b: Seq<Seq<Pixel>>,
    radius: int,
    y: int,
    x: int,
) -> bool {
    &&& a.len() == b.len()
    &&& a[0].len() == b[0].len()
    &&& forall|j: int, i: int|
        0 <= j < a.len() && 0 <= i < a[0].len() && y - radius <= j <= y + radius && x - radius <= i
            <= x + radius ==> (#[trigger] a[j][i]) == b[j][i]
}

/// A blurred pixel depends on nothing but the pixels at most as many rows and columns away as the
/// kernel reaches.
pub proof fn law_blur_depends_on_neighbours_only(
    a: Seq<Seq<Pixel>>,
    b: Seq<Seq<Pixel>>,
    weights: Seq<F32>,
    blur_alpha: bool,
    lanes: bool,
    y: int,
    x: int,
)
    requires
        0 <= y < a.len(),
        0 <= x < a[0].len(),
        agree_within(a, b, weights.len() as int / 2, y, x),
    ensures
        blurred(a, weights, blur_alpha, lanes)[y][x]
            == blurred(b, weights, blur_alpha, lanes)[y][x],
{
    let r = reach(weights);
    assert forall|j: int, i: int| -r <= j <= r && -r <= i <= r implies (#[trigger] a[tap(
        y,
        j,
        a.len() as int,
    )][tap(x, i, a[0].len() as int)]) == b[tap(y, j, a.len() as int)][tap(
        x,
        i,
        a[0].len() as int,
    )] by {
        law_tap_is_nearest(y, j, a.len() as int, y);
        law_tap_is_nearest(x, i, a[0].len() as int, x);
        law_tap_stays_near(y, j, a.len() as int);
        law_tap_stays_near(x, i, a[0].len() as int);
    }
    assert(agree_near(a, b, r, y, x));
    law_blur_is_local(a, b, weights, blur_alpha, lanes, y, x);
}

/// The same of the blurs with a fixed window.
pub proof fn law_window_depends_on_neighbours_only(
    a: Seq<Seq<Pixel>>,
    b: Seq<Seq<Pixel>>,
    weights: Seq<F32>,
    half: int,
    blur_alpha: bool,
    y: int,
    x: int,
)
    requires
        0 <= half,
        0 <= y < a.len(),
        0 <= x < a[0].len(),
        agree_within(a, b, half, y, x),
    ensures
        windowed_image(a, weights, half, blur_alpha)[y][x]
            == windowed_image(b, weights, half, blur_alpha)[y][x],
{
    let side = 2 * half + 1;
    assert(a[y][x] == b[y][x]);
    assert forall|c: int| window_samples(a, half, y, x, c) =~= window_samples(b, half, y, x, c) by {
        let p = window_samples(a, half, y, x, c);
        let q = window_samples(b, half, y, x, c);
        assert forall|k: int| 0 <= k < p.len() implies p[k] == q[k] by {
            vstd::arithmetic::div_mod::lemma_fundamental_div_mod(k, side);
            let (j, i) = (k / side - half, k % side - half);
            assert(-half <= j <= half) by (nonlinear_arith)
                requires
                    0 <= k < side * side,
                    j == k / side - half,
                    side == 2 * half + 1,
                    half >= 0,
            ;
            law_tap_is_nearest(y, j, a.len() as int, y);
            law_tap_is_nearest(x, i, a[0].len() as int, x);
            law_tap_stays_near(y, j, a.len() as int);
            law_tap_stays_near(x, i, a[0].len() as int);
            assert(a[tap(y, j, a.len() as int)][tap(x, i, a[0].len() as int)] == b[tap(
                y,
                j,
                a.len() as int,
            )][tap(x, i, a[0].len() as int)]);
        }
    }
    assert(window_samples(a, half, y, x, 0) =~= window_samples(b, half, y, x, 0));
    assert(window_samples(a, half, y, x, 1) =~= window_samples(b, half, y, x, 1));
    assert(window_samples(a, half, y, x, 2) =~= window_samples(b, half, y, x, 2));
    assert(window_samples(a, half, y, x, 3) =~= window_samples(b, half, y, x, 3));
}

} // verus!
