//! How close a blur comes to the exact weighted mean of the pixels that it reads, and what
//! follows from that.

use crate::brightness::{
    are_normalized, are_plain, decays, exact_sum, law_kernel_from_exponentials_is_normalized,
    lemma_inverse, lemma_running_sum_error, lemma_sum_error, MAX_BOUNDED_WEIGHTS,
};
use crate::float::arith::{product, quotient};
use crate::float::convert::byte_of;
use crate::float::cut::{floored, lemma_floored_error, lemma_sum_cut_error, product_cut};
use crate::float::error::{
    lemma_near_add, lemma_near_same, lemma_near_trans, lemma_small_rounding_error, near,
};
use crate::float::numbers::one;
use crate::float::order::{is_plain, lemma_byte_round_trip, lemma_of_int_exact};
use crate::float::repr::{grid, lemma_parts_of, F32};
use crate::float::round::nearest;
use crate::kernel::is_gaussian;
use crate::laws::law_absent_colour_stays_absent;
use crate::pixel::{channel, Pixel};
use crate::sampling::{gathered, normalized, reach, running_sum, tap};
use crate::separable::{blurred, column_samples, down, row_samples};
use vstd::arithmetic::power2::{
    lemma2_to64, lemma2_to64_rest, lemma_pow2_adds, lemma_pow2_pos, lemma_pow2_strictly_increases,
    pow2,
};
use vstd::prelude::*;

verus! {

/// Whether weights are finite, have no sign, and add up to a number from a half to two.
pub open spec fn are_ordinary(weights: Seq<F32>) -> bool {
    &&& 0 < weights.len() <= MAX_BOUNDED_WEIGHTS
    &&& are_plain(weights)
    &&& pow2(148) <= exact_sum(weights, weights.len()) <= pow2(150)
}

/// Normalized weights are ordinary.
pub proof fn law_normalized_weights_are_ordinary(weights: Seq<F32>)
    requires
        0 < weights.len() <= MAX_BOUNDED_WEIGHTS,
        are_plain(weights),
        are_normalized(weights),
    ensures
        are_ordinary(weights),
{
    let t = exact_sum(weights, weights.len()) as int;
    let unit = pow2(149) as int;
    let k = 2 * weights.len() + 5;
    lemma_pow2_adds(1, 148);
    lemma_pow2_adds(1, 149);
    lemma2_to64();
    assert(unit <= 2 * t && t <= 2 * unit) by (nonlinear_arith)
        requires
            (0x100_0000 - k) * unit <= 0x100_0000 * t <= (0x100_0000 + k) * unit,
            0 <= k <= 0x50_0000,
            unit >= 0,
    ;
}

/// Whether `a` and `b` are at most `e / 2^24` apart.
pub open spec fn within(a: int, b: int, e: int) -> bool {
    0x100_0000 * a <= 0x100_0000 * b + e && 0x100_0000 * b <= 0x100_0000 * a + e
}

/// The exact sum of the first `n` samples, each multiplied by its weight.
pub open spec fn exact_dot(samples: Seq<F32>, weights: Seq<F32>, n: nat) -> nat
    decreases n,
{
    if n == 0 {
        0
    } else {
        exact_dot(samples, weights, (n - 1) as nat) + grid(samples[n - 1].magnitude()) * grid(
            weights[n - 1].magnitude(),
        )
    }
}

/// The samples, each multiplied by its weight, and rounded or cut off.
pub open spec fn terms(samples: Seq<F32>, weights: Seq<F32>, lanes: bool) -> Seq<F32> {
    Seq::new(
        weights.len(),
        |j: int|
            if lanes {
                product(samples[j], weights[j])
            } else {
                product_cut(samples[j], weights[j])
            },
    )
}

/// A weighted sum is close to the exact sum of its terms.
pub proof fn lemma_gathered_error(samples: Seq<F32>, weights: Seq<F32>, lanes: bool, n: nat)
    requires
        n <= weights.len(),
        n <= MAX_BOUNDED_WEIGHTS,
        are_plain(terms(samples, weights, lanes)),
        exact_sum(terms(samples, weights, lanes), n) < pow2(270),
    ensures
        is_plain(gathered(samples, weights, n, lanes)),
        gathered(samples, weights, n, lanes).is_finite(),
        near(
            grid(gathered(samples, weights, n, lanes).magnitude()) as int,
            exact_sum(terms(samples, weights, lanes), n) as int,
            3 * n as int,
        ),
    decreases n,
{
    let all = terms(samples, weights, lanes);
    if n == 0 {
        assert(grid(0) == 0);
        lemma_near_same(0, 0);
    } else {
        let k = (n - 1) as nat;
        lemma_gathered_error(samples, weights, lanes, k);
        let before = gathered(samples, weights, k, lanes);
        let p = grid(before.magnitude()) as int;
        let v = grid(all[n - 1].magnitude()) as int;
        let t = exact_sum(all, k) as int;
        lemma_pow2_adds(270, 6);
        lemma2_to64();
        assert(0x100_0000 * p <= 0x200_0000 * t) by (nonlinear_arith)
            requires
                0x100_0000 * p <= (0x100_0000 + 3 * k) * t,
                k <= 0x10_0000,
                t >= 0,
        ;
        let s = gathered(samples, weights, n, lanes);
        if lanes {
            lemma_sum_error(before, all[n - 1]);
            assert((0x100_0000 - 2) * (p + v) <= (0x100_0000 - 1) * (p + v) && (0x100_0000 + 1) * (p
                + v) <= (0x100_0000 + 2) * (p + v)) by (nonlinear_arith)
                requires
                    p + v >= 0,
            ;
        } else {
            lemma_sum_cut_error(before, all[n - 1]);
        }
        lemma_near_same(v, 3 * k as int);
        lemma_near_add(p, t, v, v, 3 * k as int);
        lemma_near_trans(grid(s.magnitude()) as int, p + v, t + v, 2, 3 * k as int);
    }
}

/// Whether samples are finite, have no sign, and are at most `bound`.
pub open spec fn are_bounded(samples: Seq<F32>, bound: nat) -> bool {
    &&& are_plain(samples)
    &&& forall|j: int|
        0 <= j < samples.len() ==> grid((#[trigger] samples[j]).magnitude()) <= bound
}

/// The terms of a weighted sum, with the error of their exact sum.
pub proof fn lemma_terms(
    samples: Seq<F32>,
    weights: Seq<F32>,
    lanes: bool,
    bound: nat,
    n: nat,
)
    requires
        samples.len() == weights.len(),
        n <= weights.len(),
        are_plain(weights),
        are_bounded(samples, bound),
        bound <= pow2(158),
        exact_sum(weights, n) <= pow2(150),
    ensures
        forall|j: int|
            0 <= j < n ==> is_plain(#[trigger] terms(samples, weights, lanes)[j]) && terms(
                samples,
                weights,
                lanes,
            )[j].is_finite(),
        exact_dot(samples, weights, n) <= bound * exact_sum(weights, n),
        ({
            let got = exact_sum(terms(samples, weights, lanes), n) * pow2(149);
            let want = exact_dot(samples, weights, n);
            within(got as int, want as int, (2 * want + n * (0x100_0000 * pow2(149))) as int)
        }),
    decreases n,
{
    let unit = pow2(149);
    if n == 0 {
        assert(0 * unit == 0 && bound * 0 == 0);
        assert(0 * (0x100_0000 * unit) == 0);
    } else {
        let k = (n - 1) as nat;
        lemma_terms(samples, weights, lanes, bound, k);
        let x = grid(samples[n - 1].magnitude());
        let w = grid(weights[n - 1].magnitude());
        let t = exact_sum(weights, k);
        assert(bound * (t + w) == bound * t + bound * w) by (nonlinear_arith);
        assert(x * w <= bound * w) by (nonlinear_arith)
            requires
                x <= bound,
        ;
        let term = terms(samples, weights, lanes)[n - 1];
        lemma_pow2_pos(149);
        lemma_pow2_adds(158, 150);
        lemma_pow2_adds(149, 276);
        lemma_pow2_strictly_increases(308, 425);
        assert(x * w <= pow2(158) * pow2(150)) by (nonlinear_arith)
            requires
                x <= pow2(158),
                w <= pow2(150),
        ;
        if lanes {
            lemma_small_rounding_error(x * w, unit);
            assert(term == F32::of(false, nearest(x * w, unit))) by {
                reveal(product);
            }
            lemma_parts_of(false, nearest(x * w, unit));
        } else {
            lemma_floored_error(x * w, unit);
            assert(term == F32::of(false, floored(x * w, unit))) by {
                reveal(product_cut);
            }
            lemma_parts_of(false, floored(x * w, unit));
        }
        let g = grid(term.magnitude());
        let sums = exact_sum(terms(samples, weights, lanes), k);
        assert((sums + g) * unit == sums * unit + g * unit) by (nonlinear_arith);
        assert(n * (0x100_0000 * unit) == k * (0x100_0000 * unit) + 0x100_0000 * unit)
            by (nonlinear_arith)
            requires
                n == k + 1,
        ;
    }
}

/// The division at the end of a pass, by either way, with its error.
proof fn lemma_division(weighted: F32, total: F32, lanes: bool)
    requires
        is_plain(weighted),
        weighted.is_finite(),
        grid(weighted.magnitude()) <= pow2(162),
        is_plain(total),
        total.is_finite(),
        pow2(147) <= grid(total.magnitude()) <= pow2(151),
    ensures
        is_plain(normalized(weighted, total, lanes)),
        normalized(weighted, total, lanes).is_finite(),
        ({
            let q = grid(normalized(weighted, total, lanes).magnitude());
            let r = grid(total.magnitude());
            let su = grid(weighted.magnitude()) * pow2(149);
            within((q * r) as int, su as int, (3 * su + 0x80_0000 * r) as int)
        }),
{
    let s = grid(weighted.magnitude());
    let r = grid(total.magnitude());
    let unit = pow2(149);
    lemma2_to64();
    lemma_pow2_pos(147);
    lemma_pow2_pos(149);
    assert(grid(0) == 0);
    lemma_pow2_adds(162, 149);
    lemma_pow2_adds(147, 276);
    lemma_pow2_strictly_increases(311, 423);
    assert(s * unit < r * pow2(276)) by (nonlinear_arith)
        requires
            s <= pow2(162),
            pow2(162) * unit < pow2(147) * pow2(276),
            pow2(147) <= r,
            unit > 0,
    ;
    if !lanes {
        lemma_small_rounding_error(s * unit, r);
        let m = nearest(s * unit, r);
        assert(quotient(weighted, total) == F32::of(false, m)) by {
            reveal(quotient);
        }
        lemma_parts_of(false, m);
    } else {
        lemma_pow2_strictly_increases(23, 147);
        lemma_pow2_strictly_increases(151, 272);
        lemma_inverse(total);
        let inverse = quotient(one(), total);
        let i = grid(inverse.magnitude());
        let square = unit * unit;
        assert(i * r <= square + square) by (nonlinear_arith)
            requires
                0x100_0000 * (i * r) <= (0x100_0000 + 1) * square,
        ;
        lemma_pow2_adds(149, 149);
        lemma_pow2_adds(147, 151);
        lemma_pow2_adds(1, 151);
        lemma_pow2_adds(162, 152);
        lemma_pow2_adds(149, 276);
        lemma_pow2_strictly_increases(314, 425);
        assert(i <= 2 * pow2(151)) by (nonlinear_arith)
            requires
                i * r <= 2 * (pow2(147) * pow2(151)),
                r >= pow2(147),
                pow2(147) > 0,
        ;
        assert(s * i <= pow2(162) * pow2(152)) by (nonlinear_arith)
            requires
                s <= pow2(162),
                i <= pow2(152),
        ;
        lemma_small_rounding_error(s * i, unit);
        let m = nearest(s * i, unit);
        assert(product(weighted, inverse) == F32::of(false, m)) by {
            reveal(product);
        }
        lemma_parts_of(false, m);
        lemma_lane_error(grid(m), s, i, r, unit);
    }
}

/// The errors of the inverse and of the product with it, put together.
proof fn lemma_lane_error(q: nat, s: nat, i: nat, r: nat, unit: nat)
    requires
        unit > 0,
        near((i * r) as int, (unit * unit) as int, 1),
        within((q * unit) as int, (s * i) as int, (s * i + 0x80_0000 * unit) as int),
    ensures
        within(
            (q * r) as int,
            (s * unit) as int,
            (3 * (s * unit) + 0x80_0000 * r) as int,
        ),
{
    let square = unit * unit;
    let a = (q * r) * unit;
    let b = (s * i) * r;
    let c = (s * unit) * unit;
    let e = (0x80_0000 * r) * unit;
    assert((q * unit) * r == a) by (nonlinear_arith)
        requires
            a == (q * r) * unit,
    ;
    assert((0x80_0000 * unit) * r == e) by (nonlinear_arith)
        requires
            e == (0x80_0000 * r) * unit,
    ;
    assert(within(a as int, b as int, (b + e) as int)) by {
        assert(0x100_0000 * ((q * unit) * r) <= 0x100_0000 * ((s * i) * r) + (s * i) * r
            + (0x80_0000 * unit) * r) by (nonlinear_arith)
            requires
                0x100_0000 * (q * unit) <= 0x100_0000 * (s * i) + s * i + 0x80_0000 * unit,
        ;
        assert(0x100_0000 * ((s * i) * r) <= 0x100_0000 * ((q * unit) * r) + (s * i) * r
            + (0x80_0000 * unit) * r) by (nonlinear_arith)
            requires
                0x100_0000 * (s * i) <= 0x100_0000 * (q * unit) + s * i + 0x80_0000 * unit,
        ;
    }
    assert(s * (i * r) == b) by (nonlinear_arith)
        requires
            b == (s * i) * r,
    ;
    assert(s * square == c) by (nonlinear_arith)
        requires
            c == (s * unit) * unit,
            square == unit * unit,
    ;
    assert(0x100_0000 * (s * (i * r)) <= 0x100_0000 * (s * square) + s * square && 0x100_0000 * (s
        * square) <= 0x100_0000 * (s * (i * r)) + s * square) by (nonlinear_arith)
        requires
            (0x100_0000 - 1) * square <= 0x100_0000 * (i * r) <= (0x100_0000 + 1) * square,
    ;
    let x = q * r;
    let y = s * unit;
    let z = 0x80_0000 * r;
    assert(0x100_0000 * x <= 0x100_0000 * y + 3 * y + z) by (nonlinear_arith)
        requires
            0x100_0000 * (x * unit) <= 0x100_0000 * (y * unit) + 3 * (y * unit) + z * unit,
            unit > 0,
    ;
    assert(0x100_0000 * y <= 0x100_0000 * x + 3 * y + z) by (nonlinear_arith)
        requires
            0x100_0000 * (y * unit) <= 0x100_0000 * (x * unit) + 3 * (y * unit) + z * unit,
            unit > 0,
    ;
}

/// The roundings of one pass over `n` weights.
pub open spec fn pass_slack(n: nat) -> int {
    8 * n as int + 12
}

/// The errors of a pass, put together.
proof fn lemma_pass_error(q: int, r: int, s: int, p: int, y: int, t: int, unit: int, b: int, n: int)
    requires
        0 < n <= 0x10_0000,
        q >= 0,
        s >= 0,
        p >= 0,
        y >= 0,
        t > 0,
        b >= 0,
        unit > 0,
        y <= b * t,
        n * (0x100_0000 * unit) <= b * t,
        0x80_0000 * r <= b * t,
        within(p * unit, y, 2 * y + n * (0x100_0000 * unit)),
        near(s, p, 3 * n),
        near(r, t, 2 * n),
        within(q * r, s * unit, 3 * (s * unit) + 0x80_0000 * r),
    ensures
        within(q * t, y, pass_slack(n as nat) * (b * t)),
        q <= 2 * b,
{
    let bt = b * t;
    let pu = p * unit;
    let su = s * unit;
    let qr = q * r;
    let qt = q * t;
    let npu = n * pu;
    let nbt = n * bt;
    let nqt = n * qt;
    assert(0x100_0000 * npu <= 0x100_0000 * nbt + 3 * nbt) by (nonlinear_arith)
        requires
            0x100_0000 * pu <= 0x100_0000 * bt + 3 * bt,
            npu == n * pu,
            nbt == n * bt,
            n > 0,
    ;
    assert(0 <= nbt <= 0x10_0000 * bt) by (nonlinear_arith)
        requires
            0 < n <= 0x10_0000,
            bt >= 0,
            nbt == n * bt,
    ;
    assert(0x100_0000 * su <= 0x100_0000 * pu + 3 * npu && 0x100_0000 * pu <= 0x100_0000 * su + 3
        * npu) by (nonlinear_arith)
        requires
            (0x100_0000 - 3 * n) * p <= 0x100_0000 * s <= (0x100_0000 + 3 * n) * p,
            pu == p * unit,
            su == s * unit,
            npu == n * pu,
            unit > 0,
    ;
    assert(7 * t <= 8 * r) by (nonlinear_arith)
        requires
            (0x100_0000 - 2 * n) * t <= 0x100_0000 * r,
            0 < n <= 0x10_0000,
            t > 0,
    ;
    assert(7 * qt <= 8 * qr) by (nonlinear_arith)
        requires
            7 * t <= 8 * r,
            qt == q * t,
            qr == q * r,
            q >= 0,
    ;
    assert(qt <= 2 * bt);
    assert(q <= 2 * b) by (nonlinear_arith)
        requires
            q * t <= 2 * (b * t),
            t > 0,
    ;
    assert(nqt <= 2 * nbt) by (nonlinear_arith)
        requires
            qt <= 2 * bt,
            nqt == n * qt,
            nbt == n * bt,
            n > 0,
    ;
    assert(0x100_0000 * qt <= 0x100_0000 * qr + 2 * nqt && 0x100_0000 * qr <= 0x100_0000 * qt + 2
        * nqt) by (nonlinear_arith)
        requires
            (0x100_0000 - 2 * n) * t <= 0x100_0000 * r <= (0x100_0000 + 2 * n) * t,
            qt == q * t,
            qr == q * r,
            nqt == n * qt,
            q >= 0,
    ;
    assert((8 * n + 12) * bt == 8 * nbt + 12 * bt) by (nonlinear_arith)
        requires
            nbt == n * bt,
    ;
}

/// The result of one pass is close to the exact weighted mean of its samples.
pub proof fn lemma_pass(samples: Seq<F32>, weights: Seq<F32>, lanes: bool, bound: nat)
    requires
        samples.len() == weights.len(),
        are_ordinary(weights),
        are_bounded(samples, bound),
        pow2(149) <= bound <= pow2(158),
    ensures
        ({
            let n = weights.len();
            let q = normalized(
                gathered(samples, weights, n, lanes),
                running_sum(weights, n),
                lanes,
            );
            let t = exact_sum(weights, n);
            &&& is_plain(gathered(samples, weights, n, lanes))
            &&& gathered(samples, weights, n, lanes).is_finite()
            &&& is_plain(running_sum(weights, n))
            &&& running_sum(weights, n).is_finite()
            &&& pow2(147) <= grid(running_sum(weights, n).magnitude()) <= pow2(151)
            &&& is_plain(q)
            &&& q.is_finite()
            &&& grid(q.magnitude()) <= 2 * bound
            &&& within(
                (grid(q.magnitude()) * t) as int,
                exact_dot(samples, weights, n) as int,
                pass_slack(n) * (bound * t),
            )
        }),
{
    let n = weights.len();
    let unit = pow2(149);
    let t = exact_sum(weights, n);
    lemma2_to64();
    lemma_pow2_pos(147);
    lemma_pow2_pos(148);
    lemma_pow2_pos(149);
    lemma_pow2_adds(1, 147);
    lemma_pow2_adds(1, 150);
    lemma_pow2_strictly_increases(150, 270);
    lemma_running_sum_error(weights, n);
    let total = running_sum(weights, n);
    let r = grid(total.magnitude());
    assert(r <= 2 * t && t <= 2 * r) by (nonlinear_arith)
        requires
            (0x100_0000 - 2 * n) * t <= 0x100_0000 * r <= (0x100_0000 + 2 * n) * t,
            0 < n <= 0x10_0000,
    ;
    lemma_terms(samples, weights, lanes, bound, n);
    let all = terms(samples, weights, lanes);
    let p = exact_sum(all, n);
    let y = exact_dot(samples, weights, n);
    let bt = bound * t;
    // The slack of the terms is small against the bound.
    lemma_pow2_adds(44, 104);
    lemma2_to64_rest();
    lemma_pow2_pos(104);
    assert(n * (0x100_0000 * unit) <= bt) by (nonlinear_arith)
        requires
            n <= 0x10_0000,
            bt == bound * t,
            bound >= unit,
            t >= pow2(148),
            pow2(148) == 0x1000_0000_0000 * pow2(104),
            pow2(104) >= 1,
            unit > 0,
    ;
    lemma_pow2_adds(24, 125);
    lemma_pow2_pos(125);
    assert(0x80_0000 * r <= bt) by (nonlinear_arith)
        requires
            r <= 2 * t,
            bt == bound * t,
            bound >= unit,
            unit == 0x100_0000 * pow2(125),
            pow2(125) >= 1,
    ;
    assert(p * unit <= 2 * bt);
    lemma_pow2_adds(158, 150);
    lemma_pow2_adds(149, 161);
    lemma_pow2_adds(1, 308);
    lemma_pow2_strictly_increases(309, 310);
    lemma_pow2_strictly_increases(161, 270);
    assert(bt <= pow2(158) * pow2(150)) by (nonlinear_arith)
        requires
            bt == bound * t,
            bound <= pow2(158),
            t <= pow2(150),
    ;
    assert(p < pow2(161)) by (nonlinear_arith)
        requires
            p * unit < unit * pow2(161),
            unit > 0,
    ;
    lemma_gathered_error(samples, weights, lanes, n);
    let weighted = gathered(samples, weights, n, lanes);
    let s = grid(weighted.magnitude());
    lemma_pow2_adds(1, 161);
    assert(s <= 2 * p) by (nonlinear_arith)
        requires
            0x100_0000 * s <= (0x100_0000 + 3 * n) * p,
            0 < n <= 0x10_0000,
    ;
    lemma_division(weighted, total, lanes);
    let q = grid(normalized(weighted, total, lanes).magnitude());
    lemma_pass_error(
        q as int,
        r as int,
        s as int,
        p as int,
        y as int,
        t as int,
        unit as int,
        bound as int,
        n as int,
    );
}

/// The exact weighted sum of one channel across a row, of the first `n` weights.
pub open spec fn row_dot(
    image: Seq<Seq<Pixel>>,
    weights: Seq<F32>,
    y: int,
    x: int,
    c: int,
    n: nat,
) -> nat
    decreases n,
{
    if n == 0 {
        0
    } else {
        let at = tap(x, n - 1 - reach(weights), image[0].len() as int);
        row_dot(image, weights, y, x, c, (n - 1) as nat) + channel(image[y][at], c) as nat * grid(
            weights[n - 1].magnitude(),
        )
    }
}

/// The exact weighted sum of one channel over the window of a pixel, of the first `n` rows.
/// Over the square of the sum of the weights it is the exact weighted mean.
pub open spec fn window_dot(
    image: Seq<Seq<Pixel>>,
    weights: Seq<F32>,
    y: int,
    x: int,
    c: int,
    n: nat,
) -> nat
    decreases n,
{
    if n == 0 {
        0
    } else {
        let at = tap(y, n - 1 - reach(weights), image.len() as int);
        window_dot(image, weights, y, x, c, (n - 1) as nat) + row_dot(
            image,
            weights,
            at,
            x,
            c,
            weights.len(),
        ) * grid(weights[n - 1].magnitude())
    }
}

/// The roundings of both passes of a blur over `n` weights, each for numbers of up to a few
/// hundred.
pub open spec fn blur_slack(n: nat) -> int {
    768 * pass_slack(n)
}

proof fn lemma_row_dot(
    image: Seq<Seq<Pixel>>,
    weights: Seq<F32>,
    y: int,
    x: int,
    c: int,
    n: nat,
)
    requires
        n <= weights.len(),
    ensures
        exact_dot(row_samples(image, weights, y, x, c), weights, n) == pow2(149) * row_dot(
            image,
            weights,
            y,
            x,
            c,
            n,
        ),
    decreases n,
{
    let unit = pow2(149);
    if n == 0 {
        assert(unit * 0 == 0);
    } else {
        lemma_row_dot(image, weights, y, x, c, (n - 1) as nat);
        let before = row_dot(image, weights, y, x, c, (n - 1) as nat);
        let at = tap(x, n - 1 - reach(weights), image[0].len() as int);
        let v = channel(image[y][at], c) as nat;
        let w = grid(weights[n - 1].magnitude());
        lemma_of_int_exact(v);
        assert((v * unit) * w == unit * (v * w)) by (nonlinear_arith);
        assert(unit * (before + v * w) == unit * before + unit * (v * w)) by (nonlinear_arith);
    }
}

proof fn lemma_column_dot(
    image: Seq<Seq<Pixel>>,
    weights: Seq<F32>,
    columns: Seq<F32>,
    y: int,
    x: int,
    c: int,
    e: int,
    n: nat,
)
    requires
        n <= weights.len(),
        columns.len() == weights.len(),
        forall|j: int|
            0 <= j < weights.len() ==> within(
                grid((#[trigger] columns[j]).magnitude()) * exact_sum(
                    weights,
                    weights.len(),
                ) as int,
                pow2(149) * row_dot(
                    image,
                    weights,
                    tap(y, j - reach(weights), image.len() as int),
                    x,
                    c,
                    weights.len(),
                ) as int,
                e,
            ),
    ensures
        within(
            exact_dot(columns, weights, n) * exact_sum(weights, weights.len()) as int,
            pow2(149) * window_dot(image, weights, y, x, c, n) as int,
            e * exact_sum(weights, n),
        ),
    decreases n,
{
    let unit = pow2(149) as int;
    let t = exact_sum(weights, weights.len()) as int;
    if n == 0 {
        assert(0 * t == 0 && unit * 0 == 0 && e * 0 == 0);
    } else {
        let k = (n - 1) as nat;
        lemma_column_dot(image, weights, columns, y, x, c, e, k);
        let w = grid(weights[n - 1].magnitude()) as int;
        let g = grid(columns[n - 1].magnitude()) as int;
        let d = row_dot(
            image,
            weights,
            tap(y, n - 1 - reach(weights), image.len() as int),
            x,
            c,
            weights.len(),
        ) as int;
        assert(within(g * t, unit * d, e));
        let before = exact_dot(columns, weights, k) as int;
        let dots = window_dot(image, weights, y, x, c, k) as int;
        let sums = exact_sum(weights, k) as int;
        assert((before + g * w) * t == before * t + (g * t) * w) by (nonlinear_arith);
        assert(unit * (dots + d * w) == unit * dots + (unit * d) * w) by (nonlinear_arith);
        assert(e * (sums + w) == e * sums + e * w) by (nonlinear_arith);
        let a = g * t;
        let b = unit * d;
        assert(0x100_0000 * (a * w) <= 0x100_0000 * (b * w) + e * w) by (nonlinear_arith)
            requires
                0x100_0000 * a <= 0x100_0000 * b + e,
                w >= 0,
        ;
        assert(0x100_0000 * (b * w) <= 0x100_0000 * (a * w) + e * w) by (nonlinear_arith)
            requires
                0x100_0000 * b <= 0x100_0000 * a + e,
                w >= 0,
        ;
    }
}

/// Before its fraction is cut off, a blurred channel is close to the exact weighted mean of
/// its window: `blur_slack / 2^24` at most from it.
pub proof fn law_blur_is_near_mean(
    image: Seq<Seq<Pixel>>,
    weights: Seq<F32>,
    blur_alpha: bool,
    lanes: bool,
    y: int,
    x: int,
    c: int,
)
    requires
        are_ordinary(weights),
        0 <= y < image.len(),
        0 <= x < image[0].len(),
        0 <= c < 3 || c == 3 && blur_alpha,
    ensures
        ({
            let n = weights.len();
            let t = exact_sum(weights, n) as int;
            let q = down(image, weights, blur_alpha, lanes, y, x, c);
            &&& is_plain(q)
            &&& q.is_finite()
            &&& within(
                grid(q.magnitude()) * (t * t),
                pow2(149) * window_dot(image, weights, y, x, c, n) as int,
                blur_slack(n) * (pow2(149) * (t * t)),
            )
        }),
{
    let n = weights.len();
    let unit = pow2(149) as int;
    let t = exact_sum(weights, n) as int;
    let k = pass_slack(n);
    let columns = column_samples(image, weights, blur_alpha, lanes, y, x, c);
    let first = 256 * pow2(149);
    let second = 512 * pow2(149);
    lemma2_to64();
    lemma_pow2_adds(8, 149);
    lemma_pow2_adds(9, 149);
    lemma_pow2_adds(1, 157);
    lemma_pow2_pos(149);
    let e = k * (first * t);
    assert forall|j: int| 0 <= j < n implies {
        &&& is_plain(#[trigger] columns[j])
        &&& columns[j].is_finite()
        &&& grid(columns[j].magnitude()) <= second
        &&& within(
            grid(columns[j].magnitude()) * t,
            unit * row_dot(
                image,
                weights,
                tap(y, j - reach(weights), image.len() as int),
                x,
                c,
                n,
            ) as int,
            e,
        )
    } by {
        let row = tap(y, j - reach(weights), image.len() as int);
        let samples = row_samples(image, weights, row, x, c);
        assert forall|i: int| 0 <= i < samples.len() implies is_plain(#[trigger] samples[i])
            && samples[i].is_finite() && grid(samples[i].magnitude()) <= first by {
            let v = channel(
                image[row][tap(x, i - reach(weights), image[0].len() as int)],
                c,
            ) as nat;
            lemma_of_int_exact(v);
            assert(v * pow2(149) <= 256 * pow2(149)) by (nonlinear_arith)
                requires
                    v <= 255,
            ;
        }
        lemma_pass(samples, weights, lanes, first);
        lemma_row_dot(image, weights, row, x, c, n);
    }
    lemma_pass(columns, weights, lanes, second);
    lemma_column_dot(image, weights, columns, y, x, c, e, n);
    let q = grid(down(image, weights, blur_alpha, lanes, y, x, c).magnitude()) as int;
    let dot = exact_dot(columns, weights, n) as int;
    let want = unit * window_dot(image, weights, y, x, c, n);
    let f = k * (second * t);
    assert((q * t) * t == q * (t * t)) by (nonlinear_arith);
    assert(0x100_0000 * ((q * t) * t) <= 0x100_0000 * (dot * t) + f * t) by (nonlinear_arith)
        requires
            0x100_0000 * (q * t) <= 0x100_0000 * dot + f,
            t >= 0,
    ;
    assert(0x100_0000 * (dot * t) <= 0x100_0000 * ((q * t) * t) + f * t) by (nonlinear_arith)
        requires
            0x100_0000 * dot <= 0x100_0000 * (q * t) + f,
            t >= 0,
    ;
    assert(e * t + f * t == (768 * k) * (unit * (t * t))) by (nonlinear_arith)
        requires
            e == k * (first * t),
            f == k * (second * t),
            first == 256 * unit,
            second == 512 * unit,
    ;
}

/// The byte of a plain number, where that lies within `d` whole steps of another.
proof fn lemma_bytes_apart(a: F32, b: F32, d: int)
    requires
        is_plain(a),
        is_plain(b),
        d >= 0,
        grid(a.magnitude()) < grid(b.magnitude()) + (d + 1) * pow2(149),
    ensures
        byte_of(a) <= byte_of(b) + d + 1,
{
    reveal(byte_of);
    let unit = pow2(149) as int;
    lemma_pow2_pos(149);
    let ga = grid(a.magnitude()) as int;
    let gb = grid(b.magnitude()) as int;
    let wa = ga / unit;
    let wb = gb / unit;
    vstd::arithmetic::div_mod::lemma_fundamental_div_mod(ga, unit);
    vstd::arithmetic::div_mod::lemma_fundamental_div_mod(gb, unit);
    assert(wa <= wb + d + 1) by (nonlinear_arith)
        requires
            ga == unit * wa + ga % unit,
            gb == unit * wb + gb % unit,
            0 <= ga % unit < unit,
            0 <= gb % unit < unit,
            ga < gb + (d + 1) * unit,
            unit > 0,
    ;
}

/// Two numbers within an error of a third, all times a common factor, are within twice the
/// error of each other.
proof fn lemma_both_within(a: int, b: int, c: int, f: int, e: int, unit: int)
    requires
        within(a * f, c, e * (unit * f)),
        within(b * f, c, e * (unit * f)),
        f > 0,
    ensures
        within(a, b, (2 * e) * unit),
{
    assert(0x100_0000 * a <= 0x100_0000 * b + (2 * e) * unit) by (nonlinear_arith)
        requires
            0x100_0000 * (a * f) <= 0x100_0000 * (b * f) + 2 * (e * (unit * f)),
            f > 0,
    ;
    assert(0x100_0000 * b <= 0x100_0000 * a + (2 * e) * unit) by (nonlinear_arith)
        requires
            0x100_0000 * (b * f) <= 0x100_0000 * (a * f) + 2 * (e * (unit * f)),
            f > 0,
    ;
}

/// How many whole steps an error of `e / 2^24` holds.
pub open spec fn whole_steps(e: int) -> int {
    e / 0x100_0000
}

/// An error that is less than so many whole steps.
proof fn lemma_error_in_steps(a: int, b: int, e: int, unit: int)
    requires
        within(a, b, e * unit),
        e >= 0,
        unit > 0,
    ensures
        a < b + (whole_steps(e) + 1) * unit,
        b < a + (whole_steps(e) + 1) * unit,
{
    let d = whole_steps(e);
    assert(a < b + (d + 1) * unit) by (nonlinear_arith)
        requires
            0x100_0000 * a <= 0x100_0000 * b + e * unit,
            e < 0x100_0000 * (d + 1),
            unit > 0,
    ;
    assert(b < a + (d + 1) * unit) by (nonlinear_arith)
        requires
            0x100_0000 * b <= 0x100_0000 * a + e * unit,
            e < 0x100_0000 * (d + 1),
            unit > 0,
    ;
}

/// The blur with lanes and the blur without give the same image up to rounding: no channel
/// differs by more than one, or by more steps where there are thousands of weights.
pub proof fn law_lanes_agree_with_scalar(
    image: Seq<Seq<Pixel>>,
    weights: Seq<F32>,
    blur_alpha: bool,
    y: int,
    x: int,
    c: int,
)
    requires
        are_ordinary(weights),
        0 <= y < image.len(),
        0 <= x < image[0].len(),
        0 <= c < 4,
    ensures
        ({
            let a = channel(blurred(image, weights, blur_alpha, true)[y][x], c) as int;
            let b = channel(blurred(image, weights, blur_alpha, false)[y][x], c) as int;
            let d = 1 + whole_steps(2 * blur_slack(weights.len()));
            &&& -d <= a - b <= d
            &&& weights.len() <= 1363 ==> d == 1
        }),
{
    let n = weights.len();
    let e = 2 * blur_slack(n);
    if c < 3 || blur_alpha {
        let unit = pow2(149) as int;
        let t = exact_sum(weights, n) as int;
        law_blur_is_near_mean(image, weights, blur_alpha, true, y, x, c);
        law_blur_is_near_mean(image, weights, blur_alpha, false, y, x, c);
        let a = down(image, weights, blur_alpha, true, y, x, c);
        let b = down(image, weights, blur_alpha, false, y, x, c);
        lemma_pow2_pos(148);
        lemma_pow2_pos(149);
        assert(t * t > 0) by (nonlinear_arith)
            requires
                t > 0,
        ;
        lemma_both_within(
            grid(a.magnitude()) as int,
            grid(b.magnitude()) as int,
            unit * window_dot(image, weights, y, x, c, n),
            t * t,
            blur_slack(n),
            unit,
        );
        lemma_error_in_steps(
            grid(a.magnitude()) as int,
            grid(b.magnitude()) as int,
            e,
            unit,
        );
        lemma_bytes_apart(a, b, whole_steps(e));
        lemma_bytes_apart(b, a, whole_steps(e));
    }
}

/// Whether one channel lies from `low` to `high` within `radius` rows and columns of a place,
/// where places outside count as the nearest ones inside.
pub open spec fn ranges_near(
    image: Seq<Seq<Pixel>>,
    c: int,
    low: u8,
    high: u8,
    radius: int,
    y: int,
    x: int,
) -> bool {
    forall|j: int, i: int|
        -radius <= j <= radius && -radius <= i <= radius ==> low <= channel(
            #[trigger] image[tap(y, j, image.len() as int)][tap(x, i, image[0].len() as int)],
            c,
        ) <= high
}

proof fn lemma_row_dot_range(
    image: Seq<Seq<Pixel>>,
    weights: Seq<F32>,
    y: int,
    x: int,
    c: int,
    low: u8,
    high: u8,
    n: nat,
)
    requires
        n <= weights.len(),
        forall|i: int|
            -reach(weights) <= i <= reach(weights) ==> low <= channel(
                #[trigger] image[y][tap(x, i, image[0].len() as int)],
                c,
            ) <= high,
    ensures
        low * exact_sum(weights, n) <= row_dot(image, weights, y, x, c, n) <= high * exact_sum(
            weights,
            n,
        ),
    decreases n,
{
    if n == 0 {
        assert(low * 0 == 0 && high * 0 == 0);
    } else {
        let k = (n - 1) as nat;
        lemma_row_dot_range(image, weights, y, x, c, low, high, k);
        let v = channel(image[y][tap(x, n - 1 - reach(weights), image[0].len() as int)], c);
        let w = grid(weights[n - 1].magnitude());
        let t = exact_sum(weights, k);
        assert(low * (t + w) == low * t + low * w) by (nonlinear_arith);
        assert(high * (t + w) == high * t + high * w) by (nonlinear_arith);
        assert(low * w <= v * w <= high * w) by (nonlinear_arith)
            requires
                low <= v <= high,
                w >= 0,
        ;
    }
}

proof fn lemma_window_dot_range(
    image: Seq<Seq<Pixel>>,
    weights: Seq<F32>,
    y: int,
    x: int,
    c: int,
    low: u8,
    high: u8,
    n: nat,
)
    requires
        n <= weights.len(),
        ranges_near(image, c, low, high, reach(weights), y, x),
    ensures
        ({
            let t = exact_sum(weights, weights.len());
            &&& low * (t * exact_sum(weights, n)) <= window_dot(image, weights, y, x, c, n)
            &&& window_dot(image, weights, y, x, c, n) <= high * (t * exact_sum(weights, n))
        }),
    decreases n,
{
    let t = exact_sum(weights, weights.len());
    if n == 0 {
        assert(low * (t * 0) == 0 && high * (t * 0) == 0) by (nonlinear_arith);
    } else {
        let k = (n - 1) as nat;
        lemma_window_dot_range(image, weights, y, x, c, low, high, k);
        let at = tap(y, n - 1 - reach(weights), image.len() as int);
        lemma_row_dot_range(image, weights, at, x, c, low, high, weights.len());
        let d = row_dot(image, weights, at, x, c, weights.len());
        let w = grid(weights[n - 1].magnitude());
        let s = exact_sum(weights, k);
        assert(low * (t * (s + w)) == low * (t * s) + (low * t) * w) by (nonlinear_arith);
        assert(high * (t * (s + w)) == high * (t * s) + (high * t) * w) by (nonlinear_arith);
        assert((low * t) * w <= d * w <= (high * t) * w) by (nonlinear_arith)
            requires
                low * t <= d <= high * t,
                w >= 0,
        ;
    }
}

/// A number whose product with a factor is close to a number in a range.
proof fn lemma_close_to_range(q: int, dot: int, low: int, high: int, f: int, e: int, unit: int)
    requires
        within(q * f, unit * dot, e * (unit * f)),
        low * f <= dot <= high * f,
        f > 0,
        e >= 0,
        unit > 0,
    ensures
        (low - whole_steps(e) - 1) * unit < q < (high + whole_steps(e) + 1) * unit,
{
    let d = whole_steps(e);
    assert(q < (high + d + 1) * unit) by (nonlinear_arith)
        requires
            0x100_0000 * (q * f) <= 0x100_0000 * (unit * dot) + e * (unit * f),
            dot <= high * f,
            e < 0x100_0000 * (d + 1),
            f > 0,
            unit > 0,
    {
        assert(unit * dot <= unit * (high * f));
        assert(unit * (high * f) == (unit * high) * f);
        assert(e * (unit * f) < (0x100_0000 * (d + 1)) * (unit * f)) by {
            assert(unit * f > 0);
        }
        assert((0x100_0000 * (d + 1)) * (unit * f) == 0x100_0000 * (((d + 1) * unit) * f));
        assert(q * f < (unit * high) * f + ((d + 1) * unit) * f);
        assert((unit * high) * f + ((d + 1) * unit) * f == ((high + d + 1) * unit) * f);
    }
    assert((low - d - 1) * unit < q) by (nonlinear_arith)
        requires
            0x100_0000 * (unit * dot) <= 0x100_0000 * (q * f) + e * (unit * f),
            low * f <= dot,
            e < 0x100_0000 * (d + 1),
            f > 0,
            unit > 0,
    {
        assert(unit * dot >= unit * (low * f));
        assert(unit * (low * f) == (unit * low) * f);
        assert(e * (unit * f) < (0x100_0000 * (d + 1)) * (unit * f)) by {
            assert(unit * f > 0);
        }
        assert((0x100_0000 * (d + 1)) * (unit * f) == 0x100_0000 * (((d + 1) * unit) * f));
        assert((unit * low) * f < q * f + ((d + 1) * unit) * f);
        assert((unit * low) * f - ((d + 1) * unit) * f == ((low - d - 1) * unit) * f);
    }
}

/// How many steps a blurred channel can leave the range of its window by, where there are
/// `n` weights. Up to some thousands of weights it is none.
pub open spec fn range_loss(n: nat) -> int {
    whole_steps(blur_slack(n))
}

/// A blurred channel is at most the greatest value in its window, and no more than one below
/// the least: cutting off the fraction can take one step. Only with many thousands of
/// weights can rounding take it further.
pub proof fn law_blur_stays_in_range(
    image: Seq<Seq<Pixel>>,
    weights: Seq<F32>,
    blur_alpha: bool,
    lanes: bool,
    low: u8,
    high: u8,
    y: int,
    x: int,
    c: int,
)
    requires
        are_ordinary(weights),
        0 <= y < image.len(),
        0 <= x < image[0].len(),
        0 <= c < 4,
        ranges_near(image, c, low, high, reach(weights), y, x),
    ensures
        ({
            let r = channel(blurred(image, weights, blur_alpha, lanes)[y][x], c);
            let loss = range_loss(weights.len());
            &&& low - 1 - loss <= r <= high + loss
            &&& weights.len() <= 2729 ==> loss == 0
        }),
{
    let n = weights.len();
    let loss = range_loss(n);
    if c < 3 || blur_alpha {
        let unit = pow2(149) as int;
        let t = exact_sum(weights, n) as int;
        law_blur_is_near_mean(image, weights, blur_alpha, lanes, y, x, c);
        lemma_window_dot_range(image, weights, y, x, c, low, high, n);
        let a = down(image, weights, blur_alpha, lanes, y, x, c);
        let q = grid(a.magnitude()) as int;
        lemma_pow2_pos(148);
        lemma_pow2_pos(149);
        assert(t * t > 0) by (nonlinear_arith)
            requires
                t > 0,
        ;
        lemma_close_to_range(
            q,
            window_dot(image, weights, y, x, c, n) as int,
            low as int,
            high as int,
            t * t,
            blur_slack(n),
            unit,
        );
        reveal(byte_of);
        let w = q / unit;
        vstd::arithmetic::div_mod::lemma_fundamental_div_mod(q, unit);
        assert(low - 1 - loss <= w <= high + loss) by (nonlinear_arith)
            requires
                q == unit * w + q % unit,
                0 <= q % unit < unit,
                (low - loss - 1) * unit < q < (high + loss + 1) * unit,
                unit > 0,
        ;
    } else {
        assert(tap(y, 0, image.len() as int) == y);
        assert(tap(x, 0, image[0].len() as int) == x);
        assert(low <= channel(
            image[tap(y, 0, image.len() as int)][tap(x, 0, image[0].len() as int)],
            c,
        ) <= high);
        lemma_byte_round_trip(image[y][x].a);
    }
}

/// An image of one colour stays what it is, but for the last step of each byte: every
/// channel comes out unchanged or one lower, and a channel of zero as zero. Only with many
/// thousands of weights can rounding take it further.
pub proof fn law_uniform_image_keeps_colour(
    image: Seq<Seq<Pixel>>,
    pixel: Pixel,
    weights: Seq<F32>,
    blur_alpha: bool,
    lanes: bool,
    y: int,
    x: int,
    c: int,
)
    requires
        are_ordinary(weights),
        0 <= y < image.len(),
        0 <= x < image[0].len(),
        0 <= c < 4,
        forall|j: int, i: int|
            0 <= j < image.len() && 0 <= i < image[0].len() ==> (#[trigger] image[j][i]) == pixel,
    ensures
        ({
            let v = channel(pixel, c);
            let r = channel(blurred(image, weights, blur_alpha, lanes)[y][x], c);
            let loss = range_loss(weights.len());
            &&& v - 1 - loss <= r <= v + loss
            &&& v == 0 ==> r == 0
            &&& weights.len() <= 2729 ==> loss == 0
        }),
{
    let v = channel(pixel, c);
    law_blur_stays_in_range(image, weights, blur_alpha, lanes, v, v, y, x, c);
    if v == 0 {
        law_absent_colour_stays_absent(image, weights, blur_alpha, lanes, y, x, c);
    }
}

/// Two blurs with the kernel of the same radius and sigma, one with lanes and one without, give
/// the same image but for one step of each channel: for every sigma of ordinary size and every
/// radius of up to some hundreds.
pub proof fn law_gaussian_blurs_agree<E: Fn(F32) -> F32>(
    exp: E,
    radius: int,
    sigma: F32,
    weights: Seq<F32>,
    image: Seq<Seq<Pixel>>,
    blur_alpha: bool,
    y: int,
    x: int,
    c: int,
)
    requires
        decays(exp),
        is_plain(sigma),
        sigma.is_finite(),
        pow2(109) <= grid(sigma.magnitude()) <= pow2(189),
        0 <= radius <= 680,
        is_gaussian(exp, radius, sigma, weights),
        0 <= y < image.len(),
        0 <= x < image[0].len(),
        0 <= c < 4,
    ensures
        ({
            let a = channel(blurred(image, weights, blur_alpha, true)[y][x], c);
            let b = channel(blurred(image, weights, blur_alpha, false)[y][x], c);
            a - 1 <= b <= a + 1
        }),
{
    law_kernel_from_exponentials_is_normalized(exp, radius, sigma, weights);
    law_normalized_weights_are_ordinary(weights);
    law_lanes_agree_with_scalar(image, weights, blur_alpha, y, x, c);
}

} // verus!
