//! That a brighter image has a brighter blur.

use crate::accuracy::{are_bounded, are_ordinary, lemma_pass};
use crate::brightness::lemma_inverse;
use crate::float::arith::{product, quotient, sum};
use crate::float::convert::byte_of;
use crate::float::cut::{
    lemma_product_cut_keeps_order, lemma_sum_cut_keeps_order, product_cut,
};
use crate::float::numbers::one;
use crate::float::order::{
    is_plain, lemma_byte_round_trip, lemma_of_int_exact, lemma_of_int_keeps_order,
    lemma_product_keeps_order, lemma_quotient_keeps_order, lemma_sum_keeps_order, lemma_sum_plain,
};
use crate::float::repr::{grid, lemma_grid_increases, F32};
use crate::pixel::{channel, Pixel};
use crate::sampling::{gathered, normalized, reach, running_sum, tap};
use crate::separable::{across, blurred, column_samples, down, row_samples};
use vstd::arithmetic::power2::{
    lemma2_to64, lemma_pow2_adds, lemma_pow2_pos, lemma_pow2_strictly_increases, pow2,
};
use vstd::prelude::*;

verus! {

/// Whether no sample is above the one at its place in another sequence; all of them finite
/// and without a sign.
pub open spec fn are_at_most(a: Seq<F32>, b: Seq<F32>) -> bool {
    &&& a.len() == b.len()
    &&& forall|j: int|
        0 <= j < a.len() ==> {
            &&& is_plain(#[trigger] a[j])
            &&& is_plain(b[j])
            &&& b[j].is_finite()
            &&& a[j].magnitude() <= b[j].magnitude()
        }
}

/// Sums of plain numbers keep the order of both.
proof fn lemma_sums_keep_order(a: F32, b: F32, c: F32, d: F32)
    requires
        is_plain(a),
        is_plain(b),
        is_plain(c),
        is_plain(d),
        a.magnitude() <= c.magnitude(),
        b.magnitude() <= d.magnitude(),
    ensures
        is_plain(sum(a, b)),
        is_plain(sum(c, d)),
        sum(a, b).magnitude() <= sum(c, d).magnitude(),
{
    lemma_sum_plain(a, b);
    lemma_sum_plain(c, d);
    if c.is_finite() && d.is_finite() {
        lemma_sum_keeps_order(a, c, b);
        lemma_sum_keeps_order(b, d, c);
        assert(sum(c, b) == sum(b, c) && sum(c, d) == sum(d, c)) by {
            reveal(sum);
        }
    } else {
        reveal(sum);
    }
}

proof fn lemma_gathered_keeps_order(
    a: Seq<F32>,
    b: Seq<F32>,
    weights: Seq<F32>,
    lanes: bool,
    n: nat,
)
    requires
        are_at_most(a, b),
        a.len() == weights.len(),
        n <= weights.len(),
        forall|j: int|
            0 <= j < weights.len() ==> is_plain(#[trigger] weights[j]) && weights[j].is_finite(),
    ensures
        is_plain(gathered(a, weights, n, lanes)),
        is_plain(gathered(b, weights, n, lanes)),
        gathered(a, weights, n, lanes).magnitude() <= gathered(b, weights, n, lanes).magnitude(),
    decreases n,
{
    if n > 0 {
        let k = (n - 1) as nat;
        lemma_gathered_keeps_order(a, b, weights, lanes, k);
        let w = weights[n - 1];
        let low = gathered(a, weights, k, lanes);
        let high = gathered(b, weights, k, lanes);
        if lanes {
            lemma_product_keeps_order(a[n - 1], w, b[n - 1], w);
            lemma_product_keeps_order(b[n - 1], w, b[n - 1], w);
            lemma_sums_keep_order(low, product(a[n - 1], w), high, product(b[n - 1], w));
        } else {
            lemma_product_cut_keeps_order(a[n - 1], w, b[n - 1], w);
            lemma_sum_cut_keeps_order(
                low,
                product_cut(a[n - 1], w),
                high,
                product_cut(b[n - 1], w),
            );
        }
    }
}

/// A pass keeps the order of its samples.
pub proof fn lemma_pass_keeps_order(
    a: Seq<F32>,
    b: Seq<F32>,
    weights: Seq<F32>,
    lanes: bool,
    bound: nat,
)
    requires
        are_ordinary(weights),
        are_at_most(a, b),
        a.len() == weights.len(),
        are_bounded(a, bound),
        are_bounded(b, bound),
        pow2(149) <= bound <= pow2(158),
    ensures
        ({
            let n = weights.len();
            let total = running_sum(weights, n);
            let p = normalized(gathered(a, weights, n, lanes), total, lanes);
            let q = normalized(gathered(b, weights, n, lanes), total, lanes);
            &&& is_plain(p) && p.is_finite() && grid(p.magnitude()) <= 2 * bound
            &&& is_plain(q) && q.is_finite() && grid(q.magnitude()) <= 2 * bound
            &&& p.magnitude() <= q.magnitude()
        }),
{
    let n = weights.len();
    let total = running_sum(weights, n);
    lemma_pass(a, weights, lanes, bound);
    lemma_pass(b, weights, lanes, bound);
    lemma_gathered_keeps_order(a, b, weights, lanes, n);
    let s = gathered(a, weights, n, lanes);
    let t = gathered(b, weights, n, lanes);
    lemma_pow2_pos(147);
    assert(grid(0) == 0);
    if lanes {
        lemma_pow2_strictly_increases(23, 147);
        lemma_pow2_strictly_increases(151, 272);
        lemma_inverse(total);
        let inverse = quotient(one(), total);
        lemma_product_keeps_order(s, inverse, t, inverse);
    } else {
        lemma_quotient_keeps_order(s, t, total);
    }
}

/// Whether one channel of an image is nowhere above that of another image of the same size,
/// within `radius` rows and columns of a place, where places outside count as the nearest
/// ones inside.
pub open spec fn at_most_near(
    a: Seq<Seq<Pixel>>,
    b: Seq<Seq<Pixel>>,
    c: int,
    radius: int,
    y: int,
    x: int,
) -> bool {
    &&& a.len() == b.len()
    &&& a[0].len() == b[0].len()
    &&& forall|j: int, i: int|
        -radius <= j <= radius && -radius <= i <= radius ==> channel(
            #[trigger] a[tap(y, j, a.len() as int)][tap(x, i, a[0].len() as int)],
            c,
        ) <= channel(b[tap(y, j, a.len() as int)][tap(x, i, a[0].len() as int)], c)
}

/// The byte of a number that is not greater is not greater.
pub proof fn lemma_byte_keeps_order(a: F32, b: F32)
    requires
        is_plain(a),
        is_plain(b),
        a.magnitude() <= b.magnitude(),
    ensures
        byte_of(a) <= byte_of(b),
{
    reveal(byte_of);
    lemma_pow2_pos(149);
    if a.magnitude() < b.magnitude() {
        lemma_grid_increases(a.magnitude(), b.magnitude());
    }
    vstd::arithmetic::div_mod::lemma_div_is_ordered(
        grid(a.magnitude()) as int,
        grid(b.magnitude()) as int,
        pow2(149) as int,
    );
}

/// Where no pixel in the window of a place is brighter in one image than in another, the
/// blurred pixel is not brighter either.
pub proof fn law_blur_keeps_order(
    a: Seq<Seq<Pixel>>,
    b: Seq<Seq<Pixel>>,
    weights: Seq<F32>,
    blur_alpha: bool,
    lanes: bool,
    y: int,
    x: int,
    c: int,
)
    requires
        are_ordinary(weights),
        0 <= y < a.len(),
        0 <= x < a[0].len(),
        0 <= c < 4,
        at_most_near(a, b, c, reach(weights), y, x),
    ensures
        channel(blurred(a, weights, blur_alpha, lanes)[y][x], c) <= channel(
            blurred(b, weights, blur_alpha, lanes)[y][x],
            c,
        ),
{
    let height = a.len() as int;
    let width = a[0].len() as int;
    let r = reach(weights);
    if c < 3 || blur_alpha {
        let p = column_samples(a, weights, blur_alpha, lanes, y, x, c);
        let q = column_samples(b, weights, blur_alpha, lanes, y, x, c);
        let first = 256 * pow2(149);
        let second = 512 * pow2(149);
        lemma2_to64();
        lemma_pow2_adds(8, 149);
        lemma_pow2_adds(9, 149);
        lemma_pow2_adds(1, 157);
        lemma_pow2_pos(149);
        assert forall|j: int|
            #![trigger p[j]]
            #![trigger q[j]]
            0 <= j < weights.len() implies {
            &&& is_plain(p[j]) && p[j].is_finite()
            &&& is_plain(q[j]) && q[j].is_finite()
            &&& grid(p[j].magnitude()) <= second && grid(q[j].magnitude()) <= second
            &&& p[j].magnitude() <= q[j].magnitude()
        } by {
            let row = tap(y, j - r, height);
            let s = row_samples(a, weights, row, x, c);
            let t = row_samples(b, weights, row, x, c);
            assert forall|i: int|
                #![trigger s[i]]
                #![trigger t[i]]
                0 <= i < weights.len() implies {
                &&& is_plain(s[i]) && s[i].is_finite()
                &&& is_plain(t[i]) && t[i].is_finite()
                &&& grid(s[i].magnitude()) <= first && grid(t[i].magnitude()) <= first
                &&& s[i].magnitude() <= t[i].magnitude()
            } by {
                let u = channel(a[tap(y, j - r, height)][tap(x, i - r, width)], c) as nat;
                let v = channel(b[tap(y, j - r, height)][tap(x, i - r, width)], c) as nat;
                lemma_of_int_exact(u);
                lemma_of_int_exact(v);
                lemma_of_int_keeps_order(u, v);
                assert(u * pow2(149) <= first && v * pow2(149) <= first) by (nonlinear_arith)
                    requires
                        u <= 255,
                        v <= 255,
                        first == 256 * pow2(149),
                ;
            }
            lemma_pass_keeps_order(s, t, weights, lanes, first);
            assert(p[j] == across(a, weights, blur_alpha, lanes, row, x, c));
            assert(q[j] == across(b, weights, blur_alpha, lanes, row, x, c));
        }
        lemma_pass_keeps_order(p, q, weights, lanes, second);
        lemma_byte_keeps_order(
            down(a, weights, blur_alpha, lanes, y, x, c),
            down(b, weights, blur_alpha, lanes, y, x, c),
        );
    } else {
        assert(tap(y, 0, height) == y && tap(x, 0, width) == x);
        assert(channel(a[tap(y, 0, height)][tap(x, 0, width)], c) <= channel(
            b[tap(y, 0, height)][tap(x, 0, width)],
            c,
        ));
        lemma_byte_round_trip(a[y][x].a);
        lemma_byte_round_trip(b[y][x].a);
    }
}

} // verus!
