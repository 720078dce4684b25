//! The weights of a kernel: that they add up to about one, and do not grow outwards.

use crate::float::arith::{negated, product, quotient, root, sum};
use crate::float::convert::{at_most, of_int};
use crate::float::error::{
    lemma_near_add, lemma_near_cancel, lemma_near_same, lemma_near_scale, lemma_near_trans,
    lemma_rounding_error, lemma_small_rounding_error, lemma_whole_rounding_error, near,
};
use crate::float::numbers::{one, pi, three, two, zero};
use crate::float::order::{
    is_plain, lemma_nearest, lemma_nearest_keeps_order, lemma_of_int_exact, lemma_of_int_is,
    lemma_of_int_keeps_order, lemma_product_keeps_order, lemma_product_of_ints,
    lemma_product_plain, lemma_quotient_keeps_order, lemma_root_keeps_order, lemma_root_of_one,
    lemma_root_of_square, lemma_zero_and_one,
};
use crate::float::repr::{grid, lemma_grid_increases, lemma_parts_of, F32, INF_MAGNITUDE};
use crate::float::round::{lemma_nearest_exact, nearest};
use crate::kernel::{
    are_exponentials, distance, gaussian_exponent, gaussian_values, gaussian_weights, is_gaussian,
    scaled_to_one,
};
use crate::sampling::running_sum;
use vstd::arithmetic::power2::{
    lemma2_to64, lemma2_to64_rest, lemma_pow2_adds, lemma_pow2_pos, lemma_pow2_strictly_increases,
    pow2,
};
use vstd::prelude::*;

verus! {

/// The largest number of weights for which the bounds are stated.
pub const MAX_BOUNDED_WEIGHTS: u32 = 0x10_0000;

/// The exact sum of the first `n` numbers, in units of two to the power of minus 149.
pub open spec fn exact_sum(values: Seq<F32>, n: nat) -> nat
    decreases n,
{
    if n == 0 {
        0
    } else {
        exact_sum(values, (n - 1) as nat) + grid(values[n - 1].magnitude())
    }
}

/// Whether numbers are finite and without a sign.
pub open spec fn are_plain(values: Seq<F32>) -> bool {
    forall|i: int| 0 <= i < values.len() ==> is_plain(#[trigger] values[i]) && values[i].is_finite()
}

/// Whether weights add up to one, but for about two roundings for each of them.
pub open spec fn are_normalized(weights: Seq<F32>) -> bool {
    near(
        exact_sum(weights, weights.len()) as int,
        pow2(149) as int,
        (2 * weights.len() + 5) as int,
    )
}

/// A sum of plain numbers, with its error.
pub proof fn lemma_sum_error(a: F32, b: F32)
    requires
        is_plain(a),
        a.is_finite(),
        is_plain(b),
        b.is_finite(),
        grid(a.magnitude()) + grid(b.magnitude()) < pow2(276),
    ensures
        is_plain(sum(a, b)),
        sum(a, b).is_finite(),
        near(
            grid(sum(a, b).magnitude()) as int,
            (grid(a.magnitude()) + grid(b.magnitude())) as int,
            1,
        ),
{
    reveal(sum);
    let exact = grid(a.magnitude()) + grid(b.magnitude());
    lemma_whole_rounding_error(exact);
    lemma_parts_of(false, nearest(exact, 1));
    if exact == 0 {
        assert(grid(0) == 0);
        lemma_near_same(0, 1);
    }
}

/// The running sum of plain numbers, with its error.
pub proof fn lemma_running_sum_error(values: Seq<F32>, n: nat)
    requires
        are_plain(values),
        n <= values.len(),
        n <= MAX_BOUNDED_WEIGHTS,
        exact_sum(values, n) < pow2(270),
    ensures
        is_plain(running_sum(values, n)),
        running_sum(values, n).is_finite(),
        near(
            grid(running_sum(values, n).magnitude()) as int,
            exact_sum(values, n) as int,
            2 * n as int,
        ),
    decreases n,
{
    if n == 0 {
        assert(grid(0) == 0);
        lemma_near_same(0, 0);
    } else {
        let k = (n - 1) as nat;
        lemma_running_sum_error(values, k);
        let before = running_sum(values, k);
        let value = values[n - 1];
        let p = grid(before.magnitude()) as int;
        let v = grid(value.magnitude()) as int;
        let t = exact_sum(values, k) as int;
        lemma_pow2_adds(270, 6);
        lemma2_to64();
        assert(0x100_0000 * p <= 0x200_0000 * t) by (nonlinear_arith)
            requires
                0x100_0000 * p <= (0x100_0000 + 2 * k) * t,
                k <= 0x10_0000,
                t >= 0,
        ;
        lemma_sum_error(before, value);
        lemma_near_same(v, 2 * k as int);
        lemma_near_add(p, t, v, v, 2 * k as int);
        lemma_near_trans(
            grid(running_sum(values, n).magnitude()) as int,
            p + v,
            t + v,
            1,
            2 * k as int,
        );
    }
}

/// Products of plain numbers with one factor.
spec fn products(values: Seq<F32>, factor: F32) -> Seq<F32> {
    Seq::new(values.len(), |i: int| product(values[i], factor))
}

/// The exact sum of the products of plain numbers with one factor, with its error.
proof fn lemma_products(values: Seq<F32>, factor: F32, n: nat)
    requires
        are_plain(values),
        n <= values.len(),
        is_plain(factor),
        factor.is_finite(),
        exact_sum(values, n) * grid(factor.magnitude()) < pow2(425),
    ensures
        forall|i: int|
            0 <= i < n ==> is_plain(#[trigger] products(values, factor)[i]) && products(
                values,
                factor,
            )[i].is_finite(),
        ({
            let got = exact_sum(products(values, factor), n) * pow2(149);
            let want = exact_sum(values, n) * grid(factor.magnitude());
            &&& 0x100_0000 * got <= 0x100_0000 * want + want + n * (0x80_0000 * pow2(149))
            &&& 0x100_0000 * want <= 0x100_0000 * got + want + n * (0x80_0000 * pow2(149))
        }),
    decreases n,
{
    let unit = pow2(149);
    let f = grid(factor.magnitude());
    if n == 0 {
        assert(0 * unit == 0 && 0 * f == 0);
        assert(0 * (0x80_0000 * unit) == 0);
    } else {
        let k = (n - 1) as nat;
        let t = exact_sum(values, k);
        let v = grid(values[n - 1].magnitude());
        assert((t + v) * f == t * f + v * f) by (nonlinear_arith);
        assert(t * f >= 0 && v * f >= 0) by (nonlinear_arith);
        lemma_products(values, factor, k);
        let term = products(values, factor)[n - 1];
        lemma_pow2_pos(149);
        lemma_pow2_adds(149, 276);
        lemma_small_rounding_error(v * f, unit);
        assert(term == F32::of(false, nearest(v * f, unit))) by {
            reveal(product);
        }
        lemma_parts_of(false, nearest(v * f, unit));
        let g = grid(term.magnitude());
        let sums = exact_sum(products(values, factor), k);
        assert((sums + g) * unit == sums * unit + g * unit) by (nonlinear_arith);
        assert(n * (0x80_0000 * unit) == k * (0x80_0000 * unit) + 0x80_0000 * unit)
            by (nonlinear_arith)
            requires
                n == k + 1,
        ;
    }
}

/// The exact sum of products is near the product of the exact sum where that is not tiny.
proof fn lemma_products_near(values: Seq<F32>, factor: F32)
    requires
        are_plain(values),
        values.len() <= MAX_BOUNDED_WEIGHTS,
        is_plain(factor),
        factor.is_finite(),
        pow2(296) <= exact_sum(values, values.len()) * grid(factor.magnitude()) < pow2(425),
    ensures
        are_plain(products(values, factor)),
        near(
            (exact_sum(products(values, factor), values.len()) * pow2(149)) as int,
            (exact_sum(values, values.len()) * grid(factor.magnitude())) as int,
            2,
        ),
{
    let n = values.len();
    let unit = pow2(149);
    lemma_products(values, factor, n);
    lemma_pow2_adds(149, 147);
    lemma_pow2_adds(43, 104);
    lemma2_to64_rest();
    lemma_pow2_pos(104);
    lemma_pow2_pos(149);
    assert(n * (0x80_0000 * unit) <= unit * pow2(147)) by (nonlinear_arith)
        requires
            n <= 0x10_0000,
            pow2(147) == 0x800_0000_0000 * pow2(104),
            pow2(104) >= 1,
            unit > 0,
    ;
    let got = (exact_sum(products(values, factor), n) * unit) as int;
    let want = (exact_sum(values, n) * grid(factor.magnitude())) as int;
    let slack = (n * (0x80_0000 * unit)) as int;
    assert((0x100_0000 - 2) * want <= 0x100_0000 * got <= (0x100_0000 + 2) * want)
        by (nonlinear_arith)
        requires
            slack <= want,
            0x100_0000 * got <= 0x100_0000 * want + want + slack,
            0x100_0000 * want <= 0x100_0000 * got + want + slack,
    ;
}

/// The inverse of a number of ordinary size, with its error.
pub proof fn lemma_inverse(total: F32)
    requires
        is_plain(total),
        total.is_finite(),
        pow2(23) <= grid(total.magnitude()) <= pow2(272),
    ensures
        is_plain(quotient(one(), total)),
        quotient(one(), total).is_finite(),
        near(
            (grid(quotient(one(), total).magnitude()) * grid(total.magnitude())) as int,
            (pow2(149) * pow2(149)) as int,
            1,
        ),
{
    reveal(quotient);
    lemma_root_of_one();
    let r = grid(total.magnitude());
    let unit = pow2(149);
    lemma_pow2_pos(23);
    lemma_pow2_adds(149, 149);
    lemma_pow2_adds(23, 276);
    lemma_pow2_strictly_increases(298, 299);
    lemma_pow2_adds(272, 23);
    lemma_pow2_strictly_increases(295, 298);
    lemma2_to64();
    assert(r * 0x80_0000 <= pow2(272) * 0x80_0000) by (nonlinear_arith)
        requires
            r <= pow2(272),
    ;
    assert(pow2(23) * pow2(276) <= r * pow2(276)) by (nonlinear_arith)
        requires
            pow2(23) <= r,
    ;
    assert(grid(0) == 0);
    lemma_rounding_error(unit * unit, r);
    lemma_parts_of(false, nearest(unit * unit, r));
}

/// The running sum of plain numbers, with an error of little more than one rounding for each.
proof fn lemma_running_sum_tight(values: Seq<F32>, n: nat, most: int)
    requires
        are_plain(values),
        n <= values.len(),
        n <= MAX_BOUNDED_WEIGHTS,
        exact_sum(values, n) <= most < pow2(270),
    ensures
        ({
            let r = grid(running_sum(values, n).magnitude()) as int;
            let t = exact_sum(values, n) as int;
            &&& 0x800_0000 * r <= 0x800_0000 * t + 9 * (n * most)
            &&& 0x800_0000 * t <= 0x800_0000 * r + 9 * (n * most)
        }),
    decreases n,
{
    if n == 0 {
        assert(grid(0) == 0);
        assert(0 * most == 0);
    } else {
        let k = (n - 1) as nat;
        lemma_running_sum_tight(values, k, most);
        lemma_running_sum_error(values, k);
        let before = running_sum(values, k);
        let p = grid(before.magnitude()) as int;
        let v = grid(values[n - 1].magnitude()) as int;
        let t = exact_sum(values, k) as int;
        lemma_pow2_adds(270, 6);
        lemma2_to64();
        assert(8 * p <= 9 * t) by (nonlinear_arith)
            requires
                0x100_0000 * p <= (0x100_0000 + 2 * k) * t,
                k <= 0x10_0000,
                t >= 0,
        ;
        lemma_sum_error(before, values[n - 1]);
        let s = grid(running_sum(values, n).magnitude()) as int;
        let pv = p + v;
        assert(0x100_0000 * s <= 0x100_0000 * pv + pv && 0x100_0000 * pv <= 0x100_0000 * s + pv)
            by (nonlinear_arith)
            requires
                (0x100_0000 - 1) * pv <= 0x100_0000 * s <= (0x100_0000 + 1) * pv,
        ;
        assert(n * most == k * most + most) by (nonlinear_arith)
            requires
                n == k + 1,
        ;
    }
}

/// The weights of a kernel add up to one, but for about two roundings for each of them.
pub proof fn law_kernel_is_normalized(values: Seq<F32>)
    requires
        are_plain(values),
        0 < values.len() <= MAX_BOUNDED_WEIGHTS,
        pow2(24) <= exact_sum(values, values.len()) < pow2(270),
    ensures
        are_plain(scaled_to_one(values)),
        are_normalized(scaled_to_one(values)),
{
    let n = values.len();
    let t = exact_sum(values, n) as int;
    let unit = pow2(149) as int;
    lemma_running_sum_error(values, n);
    let total = running_sum(values, n);
    let r = grid(total.magnitude()) as int;
    lemma_pow2_adds(270, 2);
    lemma_pow2_adds(1, 23);
    lemma2_to64();
    assert(r <= 2 * t && t <= 2 * r) by (nonlinear_arith)
        requires
            (0x100_0000 - 2 * n) * t <= 0x100_0000 * r <= (0x100_0000 + 2 * n) * t,
            0 < n <= 0x10_0000,
            t >= 0,
    ;
    lemma_inverse(total);
    let inverse = quotient(one(), total);
    let i = grid(inverse.magnitude()) as int;
    let square = unit * unit;
    lemma_pow2_adds(149, 149);
    assert(r * i == i * r) by (nonlinear_arith);
    assert(t * i <= 2 * (i * r) && i * r <= 2 * (t * i)) by (nonlinear_arith)
        requires
            r <= 2 * t,
            t <= 2 * r,
            i >= 0,
    ;
    lemma_pow2_adds(2, 296);
    lemma_pow2_adds(2, 298);
    lemma_pow2_strictly_increases(300, 425);
    assert(pow2(296) <= t * i < pow2(425));
    lemma_products_near(values, inverse);
    let weights = scaled_to_one(values);
    assert(weights =~= products(values, inverse));
    let w = exact_sum(weights, n) as int;
    let k = 2 * n as int;
    lemma_running_sum_tight(values, n, t);
    let nt = n * t;
    assert(near(t, r, k)) by (nonlinear_arith)
        requires
            0x800_0000 * r <= 0x800_0000 * t + 9 * nt,
            0x800_0000 * t <= 0x800_0000 * r + 9 * nt,
            nt == n * t,
            0 < n <= 0x10_0000,
            t >= 0,
            k == 2 * n,
    {
        assert(nt <= 0x10_0000 * t);
        // The exact sum is little more than the computed one.
        assert(118 * t <= 128 * r);
        assert(118 * nt <= 128 * (n * r)) by {
            assert(n * (118 * t) <= n * (128 * r));
        }
        assert(9 * nt <= 10 * (n * r));
    }
    lemma_near_scale(t, r, i, k);
    lemma_near_trans(t * i, r * i, square, k, 1);
    lemma_near_trans(w * unit, t * i, square, 2, k + 2);
    lemma_pow2_pos(149);
    lemma_near_cancel(w, unit, unit, k + 5);
}

/// The square root of two times pi lies between one and four.
proof fn lemma_gaussian_factor()
    ensures
        ({
            let c = root(product(two(), pi()));
            &&& is_plain(c)
            &&& c.is_finite()
            &&& pow2(149) <= grid(c.magnitude()) <= 4 * pow2(149)
        }),
{
    let four = F32 { bits: 0x4080_0000 };
    lemma2_to64();
    lemma_pow2_adds(22, 127);
    lemma_pow2_adds(23, 127);
    lemma_pow2_adds(23, 128);
    lemma_pow2_adds(1, 149);
    lemma_pow2_adds(2, 149);
    assert(two().magnitude() / 0x80_0000 == 128 && two().magnitude() % 0x80_0000 == 0);
    assert(three().magnitude() / 0x80_0000 == 128 && three().magnitude() % 0x80_0000 == 0x40_0000);
    assert(four.magnitude() / 0x80_0000 == 129 && four.magnitude() % 0x80_0000 == 0);
    assert(grid(two().magnitude()) == 2 * pow2(149));
    let p = pow2(127);
    assert((0x80_0000 + 0x40_0000nat) * p == 3 * (0x40_0000 * p)) by (nonlinear_arith);
    assert(grid(three().magnitude()) == 3 * pow2(149));
    assert(grid(four.magnitude()) == 4 * pow2(149));
    lemma_of_int_is(2, two());
    lemma_of_int_is(3, three());
    lemma_of_int_is(4, four);
    lemma_zero_and_one();
    lemma_product_keeps_order(two(), three(), two(), pi());
    lemma_product_keeps_order(two(), pi(), two(), four);
    lemma_product_of_ints(2, 3);
    lemma_product_of_ints(2, 4);
    lemma_of_int_exact(1);
    lemma_of_int_exact(4);
    lemma_of_int_exact(6);
    lemma_of_int_exact(8);
    lemma_of_int_exact(16);
    lemma_of_int_keeps_order(1, 6);
    lemma_of_int_keeps_order(8, 16);
    let x = product(two(), pi());
    lemma_root_keeps_order(of_int(1), x);
    lemma_root_keeps_order(x, of_int(16));
    lemma_root_of_one();
    lemma_root_of_square(4);
    let m = root(x).magnitude();
    if of_int(1).magnitude() < m {
        lemma_grid_increases(of_int(1).magnitude(), m);
    }
    if m < of_int(4).magnitude() {
        lemma_grid_increases(m, of_int(4).magnitude());
    }
}

/// The divisor of the Gaussian function for a sigma of ordinary size.
pub proof fn lemma_gaussian_divisor(sigma: F32)
    requires
        is_plain(sigma),
        sigma.is_finite(),
        pow2(109) <= grid(sigma.magnitude()) <= pow2(189),
    ensures
        ({
            let d = product(root(product(two(), pi())), sigma);
            &&& is_plain(d)
            &&& d.is_finite()
            &&& pow2(108) <= grid(d.magnitude()) <= pow2(192)
        }),
{
    lemma_gaussian_factor();
    let c = grid(root(product(two(), pi())).magnitude());
    let g = grid(sigma.magnitude());
    let unit = pow2(149);
    lemma2_to64();
    lemma_pow2_pos(149);
    lemma_pow2_adds(23, 86);
    lemma_pow2_pos(86);
    lemma_pow2_adds(2, 189);
    lemma_pow2_adds(1, 191);
    lemma_pow2_adds(1, 108);
    lemma_pow2_strictly_increases(191, 276);
    assert(unit * pow2(109) <= c * g <= unit * pow2(191)) by (nonlinear_arith)
        requires
            unit <= c <= 4 * unit,
            pow2(109) <= g <= pow2(189),
            pow2(191) == 4 * pow2(189),
    ;
    assert(unit * 0x80_0000 <= unit * pow2(109)) by (nonlinear_arith)
        requires
            pow2(109) == 0x80_0000 * pow2(86),
            pow2(86) >= 1,
            unit > 0,
    ;
    assert(unit * pow2(191) < unit * pow2(276)) by (nonlinear_arith)
        requires
            pow2(191) < pow2(276),
            unit > 0,
    ;
    lemma_rounding_error(c * g, unit);
    reveal(product);
    let m = nearest(c * g, unit);
    lemma_parts_of(false, m);
    let d = grid(m);
    assert(c * g <= 2 * (d * unit) && d * unit <= 2 * (c * g)) by (nonlinear_arith)
        requires
            (0x100_0000 - 1) * (c * g) <= 0x100_0000 * (d * unit) <= (0x100_0000 + 1) * (c * g),
    ;
    assert(pow2(109) <= 2 * d && d <= 2 * pow2(191)) by (nonlinear_arith)
        requires
            unit * pow2(109) <= 2 * (d * unit),
            d * unit <= 2 * (unit * pow2(191)),
            unit > 0,
    ;
}

/// The exact sum of numbers is at least each of them, and at most their number times a bound.
pub proof fn lemma_exact_sum_bounds(values: Seq<F32>, n: nat, i: int, bound: nat)
    requires
        n <= values.len(),
        0 <= i < n,
        forall|j: int| 0 <= j < n ==> grid((#[trigger] values[j]).magnitude()) <= bound,
    ensures
        grid(values[i].magnitude()) <= exact_sum(values, n) <= n * bound,
    decreases n,
{
    assert(n * bound == (n - 1) * bound + bound) by (nonlinear_arith);
    if n == 1 {
        assert(exact_sum(values, 0) == 0);
        assert(0 * bound == 0);
    } else if i < n - 1 {
        lemma_exact_sum_bounds(values, (n - 1) as nat, i, bound);
    } else {
        lemma_exact_sum_bounds(values, (n - 1) as nat, 0, bound);
    }
}

/// The values of the Gaussian function for a sigma of ordinary size are of ordinary size.
pub proof fn lemma_gaussian_value(sigma: F32, e: F32)
    requires
        is_plain(sigma),
        sigma.is_finite(),
        pow2(109) <= grid(sigma.magnitude()) <= pow2(189),
        is_plain(e),
        e.is_finite(),
        grid(e.magnitude()) <= pow2(149),
    ensures
        ({
            let v = quotient(e, product(root(product(two(), pi())), sigma));
            &&& is_plain(v)
            &&& v.is_finite()
            &&& grid(v.magnitude()) <= pow2(192)
            &&& e == one() ==> grid(v.magnitude()) >= pow2(24)
        }),
{
    lemma_gaussian_divisor(sigma);
    let divisor = product(root(product(two(), pi())), sigma);
    let d = grid(divisor.magnitude());
    let g = grid(e.magnitude());
    let unit = pow2(149);
    lemma2_to64();
    lemma_pow2_pos(108);
    lemma_pow2_pos(149);
    lemma_pow2_adds(149, 149);
    lemma_pow2_adds(108, 276);
    lemma_pow2_strictly_increases(298, 384);
    lemma_pow2_adds(108, 190);
    lemma_pow2_adds(1, 190);
    lemma_pow2_adds(1, 191);
    lemma_pow2_pos(190);
    assert(g * unit <= unit * unit) by (nonlinear_arith)
        requires
            g <= unit,
    ;
    assert(pow2(108) * pow2(276) <= d * pow2(276)) by (nonlinear_arith)
        requires
            pow2(108) <= d,
    ;
    lemma_small_rounding_error(g * unit, d);
    assert(grid(0) == 0);
    let m = nearest(g * unit, d);
    let v = quotient(e, divisor);
    assert(v == F32::of(false, m)) by {
        reveal(quotient);
    }
    lemma_parts_of(false, m);
    let w = grid(m);
    assert(w * d <= 2 * (unit * unit) + d) by (nonlinear_arith)
        requires
            0x100_0000 * (w * d) <= 0x100_0000 * (g * unit) + g * unit + 0x80_0000 * d,
            g * unit <= unit * unit,
            d >= 0,
    ;
    assert(unit * unit <= pow2(190) * d) by (nonlinear_arith)
        requires
            unit * unit == pow2(108) * pow2(190),
            pow2(108) <= d,
    ;
    assert(w <= 2 * pow2(190) + 1) by (nonlinear_arith)
        requires
            w * d <= 2 * (pow2(190) * d) + d,
            d > 0,
    ;
    if e == one() {
        lemma_root_of_one();
        lemma_pow2_adds(192, 105);
        lemma_pow2_adds(1, 297);
        lemma_pow2_adds(192, 23);
        lemma_pow2_strictly_increases(215, 298);
        lemma_pow2_strictly_increases(24, 104);
        lemma_pow2_adds(1, 104);
        assert(d * 0x80_0000 <= pow2(192) * 0x80_0000) by (nonlinear_arith)
            requires
                d <= pow2(192),
        ;
        lemma_rounding_error(unit * unit, d);
        assert(unit * unit <= 2 * (w * d)) by (nonlinear_arith)
            requires
                (0x100_0000 - 1) * (unit * unit) <= 0x100_0000 * (w * d),
        ;
        assert(w * d <= w * pow2(192)) by (nonlinear_arith)
            requires
                d <= pow2(192),
        ;
        assert(pow2(105) <= w) by (nonlinear_arith)
            requires
                pow2(192) * pow2(105) <= w * pow2(192),
                pow2(192) > 0,
        ;
    }
}

/// The weights of a Gaussian kernel add up to one, but for about four roundings for each of
/// them, for a sigma from `2^-40` to `2^40` where the exponentials lie between zero and one
/// and one of them, that of zero, is one.
pub proof fn law_gaussian_kernel_is_normalized(sigma: F32, exponentials: Seq<F32>, middle: int)
    requires
        is_plain(sigma),
        sigma.is_finite(),
        pow2(109) <= grid(sigma.magnitude()) <= pow2(189),
        0 < exponentials.len() <= MAX_BOUNDED_WEIGHTS,
        are_plain(exponentials),
        forall|i: int|
            0 <= i < exponentials.len() ==> grid((#[trigger] exponentials[i]).magnitude()) <= pow2(
                149,
            ),
        0 <= middle < exponentials.len(),
        exponentials[middle] == one(),
    ensures
        are_plain(gaussian_weights(sigma, exponentials)),
        are_normalized(gaussian_weights(sigma, exponentials)),
{
    let values = gaussian_values(sigma, exponentials);
    let n = values.len();
    assert forall|i: int| 0 <= i < n implies is_plain(#[trigger] values[i])
        && values[i].is_finite() && grid(values[i].magnitude()) <= pow2(192) by {
        lemma_gaussian_value(sigma, exponentials[i]);
    }
    lemma_gaussian_value(sigma, exponentials[middle]);
    lemma_exact_sum_bounds(values, n, middle, pow2(192));
    lemma2_to64();
    lemma_pow2_adds(192, 20);
    lemma_pow2_strictly_increases(212, 270);
    assert(n * pow2(192) <= 0x10_0000 * pow2(192)) by (nonlinear_arith)
        requires
            n <= 0x10_0000,
    ;
    law_kernel_is_normalized(values);
}

/// The divisor of the exponents is above zero.
proof fn lemma_exponent_divisor(sigma: F32)
    requires
        is_plain(sigma),
        sigma.is_finite(),
        pow2(109) <= grid(sigma.magnitude()) <= pow2(189),
    ensures
        is_plain(product(product(two(), sigma), sigma)),
        !product(product(two(), sigma), sigma).is_zero(),
{
    let unit = pow2(149);
    let double = product(two(), sigma);
    lemma_root_of_one();
    lemma_pow2_pos(109);
    lemma_pow2_pos(149);
    assert(grid(0) == 0 && grid(1) == 1);
    lemma_product_keeps_order(one(), sigma, two(), sigma);
    lemma_product_plain(two(), sigma);
    assert(product(one(), sigma) == sigma) by {
        reveal(product);
        lemma_nearest_exact(sigma.magnitude(), unit);
        let g = grid(sigma.magnitude());
        assert(g * unit == unit * g) by (nonlinear_arith);
    }
    lemma_product_plain(double, sigma);
    if sigma.magnitude() < double.magnitude() {
        lemma_grid_increases(sigma.magnitude(), double.magnitude());
    }
    if double.is_finite() {
        let n = grid(double.magnitude()) * grid(sigma.magnitude());
        lemma_pow2_adds(109, 109);
        lemma_pow2_strictly_increases(149, 218);
        assert(n >= pow2(109) * pow2(109)) by (nonlinear_arith)
            requires
                n == grid(double.magnitude()) * grid(sigma.magnitude()),
                grid(double.magnitude()) >= pow2(109),
                grid(sigma.magnitude()) >= pow2(109),
        ;
        lemma_nearest_exact(1, 1);
        lemma_nearest_keeps_order(1, 1, n, unit);
        lemma_nearest(n, unit);
    }
    reveal(product);
}

/// The magnitude of an exponent, from the distance to the middle.
spec fn exponent_magnitude(d: nat, sigma: F32) -> nat {
    let divisor = product(product(two(), sigma), sigma);
    let square = (d * pow2(149)) * (d * pow2(149));
    if divisor.is_finite() {
        nearest(grid(nearest(square, pow2(149))) * pow2(149), grid(divisor.magnitude()))
    } else {
        0
    }
}

/// Exponents are larger in magnitude farther from the middle.
proof fn lemma_exponent_order(d: nat, e: nat, sigma: F32)
    requires
        is_plain(sigma),
        sigma.is_finite(),
        pow2(109) <= grid(sigma.magnitude()) <= pow2(189),
        d <= e,
    ensures
        exponent_magnitude(d, sigma) <= exponent_magnitude(e, sigma),
{
    lemma_exponent_divisor(sigma);
    let unit = pow2(149);
    let divisor = product(product(two(), sigma), sigma);
    lemma_pow2_pos(149);
    assert(grid(0) == 0);
    if divisor.is_finite() {
        lemma_grid_increases(0, divisor.magnitude());
        let g = grid(divisor.magnitude());
        let (a, b) = ((d * unit) * (d * unit), (e * unit) * (e * unit));
        assert(d * unit <= e * unit) by (nonlinear_arith)
            requires
                d <= e,
        ;
        assert(a * unit <= b * unit) by (nonlinear_arith)
            requires
                a == (d * unit) * (d * unit),
                b == (e * unit) * (e * unit),
                d * unit <= e * unit,
        ;
        lemma_nearest_keeps_order(a, unit, b, unit);
        let (m, n) = (nearest(a, unit), nearest(b, unit));
        if m < n {
            lemma_grid_increases(m, n);
        }
        let (x, y) = (grid(m), grid(n));
        assert((x * unit) * g <= (y * unit) * g) by (nonlinear_arith)
            requires
                x <= y,
        ;
        lemma_nearest_keeps_order(x * unit, g, y * unit, g);
    }
}

/// The exponents of a kernel are at most zero, and that of the middle is zero.
pub proof fn lemma_exponent(radius: int, sigma: F32, i: int)
    requires
        is_plain(sigma),
        sigma.is_finite(),
        pow2(109) <= grid(sigma.magnitude()) <= pow2(189),
        0 <= i <= 2 * radius,
        radius < 0x10_0000,
    ensures
        !gaussian_exponent(radius, sigma, i).is_nan(),
        gaussian_exponent(radius, sigma, i).negative(),
        i == radius ==> gaussian_exponent(radius, sigma, i).is_zero(),
{
    lemma_exponent_value(radius, sigma, i);
    if i == radius {
        lemma_exponent_divisor(sigma);
        let unit = pow2(149);
        lemma_pow2_pos(149);
        lemma_nearest_exact(0, unit);
        assert(grid(0) == 0 && 0 * unit == 0);
        assert((0 * unit) * (0 * unit) == 0) by (nonlinear_arith);
        let divisor = product(product(two(), sigma), sigma);
        if divisor.is_finite() {
            lemma_grid_increases(0, divisor.magnitude());
            lemma_nearest_exact(0, grid(divisor.magnitude()));
            assert(0 * grid(divisor.magnitude()) == 0);
        }
    }
}

/// The exponent at a weight, written out.
proof fn lemma_exponent_value(radius: int, sigma: F32, i: int)
    requires
        is_plain(sigma),
        sigma.is_finite(),
        pow2(109) <= grid(sigma.magnitude()) <= pow2(189),
        0 <= i <= 2 * radius,
        radius < 0x10_0000,
    ensures
        ({
            let d = if i < radius {
                radius - i
            } else {
                i - radius
            };
            let m = exponent_magnitude(d as nat, sigma);
            &&& m <= INF_MAGNITUDE
            &&& gaussian_exponent(radius, sigma, i) == F32::of(true, m)
        }),
{
    lemma_exponent_divisor(sigma);
    let unit = pow2(149);
    let x = distance(radius, i);
    let d = if i < radius {
        (radius - i) as nat
    } else {
        (i - radius) as nat
    };
    lemma_of_int_exact(d);
    let m = of_int(d as int).magnitude();
    lemma_pow2_pos(149);
    assert(x == F32::of(i < radius, m)) by {
        reveal(of_int);
        lemma_nearest(d * unit, 1);
        lemma_parts_of(false, nearest(d * unit, 1));
    }
    lemma_parts_of(i < radius, m);
    lemma_parts_of(!(i < radius), m);
    // The square is finite.
    let g = grid(m);
    let top = product(negated(x), x);
    lemma2_to64();
    lemma2_to64_rest();
    lemma_pow2_adds(20, 149);
    lemma_pow2_adds(169, 169);
    lemma_pow2_adds(149, 276);
    lemma_pow2_strictly_increases(338, 425);
    assert(g <= pow2(169)) by (nonlinear_arith)
        requires
            g == d * unit,
            d <= 0x10_0000,
            pow2(169) == 0x10_0000 * unit,
    ;
    assert(g * g <= pow2(169) * pow2(169)) by (nonlinear_arith)
        requires
            g <= pow2(169),
    ;
    lemma_small_rounding_error(g * g, unit);
    let k = nearest(g * g, unit);
    assert(top == F32::of(true, k)) by {
        reveal(product);
    }
    lemma_parts_of(true, k);
    let divisor = product(product(two(), sigma), sigma);
    reveal(quotient);
    lemma_parts_of(true, 0);
    if divisor.is_finite() {
        let e = grid(divisor.magnitude());
        assert(grid(0) == 0);
        lemma_grid_increases(0, divisor.magnitude());
        lemma_nearest(grid(k) * unit, e);
        lemma_parts_of(true, nearest(grid(k) * unit, e));
    }
}

/// Whether a function is, on numbers of at most zero, from zero to one, and one at zero: as the
/// exponential function is.
pub open spec fn decays<E: Fn(F32) -> F32>(exp: E) -> bool {
    forall|x: F32, r: F32|
        #[trigger] call_ensures(exp, (x,), r) && !x.is_nan() && (x.negative() || x.is_zero()) ==> {
            &&& is_plain(r)
            &&& r.is_finite()
            &&& grid(r.magnitude()) <= pow2(149)
            &&& x.is_zero() ==> r == one()
        }
}

/// The weights of a kernel are finite, have no sign and add up to one but for the roundings,
/// for every sigma of ordinary size and up to about a million weights.
pub proof fn law_kernel_from_exponentials_is_normalized<E: Fn(F32) -> F32>(
    exp: E,
    radius: int,
    sigma: F32,
    weights: Seq<F32>,
)
    requires
        decays(exp),
        is_plain(sigma),
        sigma.is_finite(),
        pow2(109) <= grid(sigma.magnitude()) <= pow2(189),
        0 <= radius,
        2 * radius + 1 <= MAX_BOUNDED_WEIGHTS,
        is_gaussian(exp, radius, sigma, weights),
    ensures
        weights.len() == 2 * radius + 1,
        are_plain(weights),
        are_normalized(weights),
{
    let exponentials = choose|exponentials: Seq<F32>| #[trigger]
        are_exponentials(exp, radius, sigma, exponentials) && weights == gaussian_weights(
            sigma,
            exponentials,
        );
    assert forall|i: int| 0 <= i < exponentials.len() implies {
        &&& is_plain(#[trigger] exponentials[i])
        &&& exponentials[i].is_finite()
        &&& grid(exponentials[i].magnitude()) <= pow2(149)
        &&& i == radius ==> exponentials[i] == one()
    } by {
        lemma_exponent(radius, sigma, i);
        assert(call_ensures(exp, (gaussian_exponent(radius, sigma, i),), exponentials[i]));
    }
    law_gaussian_kernel_is_normalized(sigma, exponentials, radius);
}

/// Whether a function falls with its argument where that is at most zero, as the exponential
/// function does.
pub open spec fn falls<E: Fn(F32) -> F32>(exp: E) -> bool {
    forall|x: F32, y: F32, r: F32, s: F32|
        #[trigger] call_ensures(exp, (x,), r) && #[trigger] call_ensures(exp, (y,), s)
            && at_most(x, y) && at_most(y, zero()) ==> at_most(r, s)
}

/// The weights of a kernel do not grow away from its middle.
pub proof fn law_weights_do_not_grow_outwards<E: Fn(F32) -> F32>(
    exp: E,
    radius: int,
    sigma: F32,
    weights: Seq<F32>,
    i: int,
    j: int,
)
    requires
        decays(exp),
        falls(exp),
        is_plain(sigma),
        sigma.is_finite(),
        pow2(109) <= grid(sigma.magnitude()) <= pow2(189),
        0 <= radius,
        2 * radius + 1 <= MAX_BOUNDED_WEIGHTS,
        is_gaussian(exp, radius, sigma, weights),
        0 <= i <= j <= radius || radius <= j <= i <= 2 * radius,
    ensures
        at_most(weights[i], weights[j]),
{
    let exponentials = choose|exponentials: Seq<F32>| #[trigger]
        are_exponentials(exp, radius, sigma, exponentials) && weights == gaussian_weights(
            sigma,
            exponentials,
        );
    lemma_exponent(radius, sigma, i);
    lemma_exponent(radius, sigma, j);
    lemma_exponent_value(radius, sigma, i);
    lemma_exponent_value(radius, sigma, j);
    let (d, e) = if i <= radius && j <= radius {
        ((radius - j) as nat, (radius - i) as nat)
    } else {
        ((j - radius) as nat, (i - radius) as nat)
    };
    lemma_exponent_order(d, e, sigma);
    lemma_parts_of(true, exponent_magnitude(d, sigma));
    lemma_parts_of(true, exponent_magnitude(e, sigma));
    let (a, b) = (exponentials[i], exponentials[j]);
    assert(call_ensures(exp, (gaussian_exponent(radius, sigma, i),), a));
    assert(call_ensures(exp, (gaussian_exponent(radius, sigma, j),), b));
    assert(at_most(a, b));
    // The values and the weights are in the same order.
    lemma_gaussian_divisor(sigma);
    let divisor = product(root(product(two(), pi())), sigma);
    lemma_pow2_pos(108);
    assert(grid(0) == 0);
    lemma_quotient_keeps_order(a, b, divisor);
    lemma_gaussian_value(sigma, a);
    lemma_gaussian_value(sigma, b);
    let values = gaussian_values(sigma, exponentials);
    let n = values.len();
    let total = running_sum(values, n);
    assert forall|k: int| 0 <= k < n implies is_plain(#[trigger] values[k]) && values[k].is_finite()
        && grid(values[k].magnitude()) <= pow2(192) by {
        lemma_exponent(radius, sigma, k);
        assert(call_ensures(exp, (gaussian_exponent(radius, sigma, k),), exponentials[k]));
        lemma_gaussian_value(sigma, exponentials[k]);
    }
    lemma_exponent(radius, sigma, radius);
    assert(call_ensures(exp, (gaussian_exponent(radius, sigma, radius),), exponentials[radius]));
    lemma_gaussian_value(sigma, exponentials[radius]);
    lemma_exact_sum_bounds(values, n, radius, pow2(192));
    lemma2_to64();
    lemma_pow2_adds(192, 20);
    lemma_pow2_adds(1, 212);
    lemma_pow2_adds(1, 23);
    lemma_pow2_strictly_increases(212, 270);
    lemma_pow2_strictly_increases(213, 272);
    assert(n * pow2(192) <= 0x10_0000 * pow2(192)) by (nonlinear_arith)
        requires
            n <= 0x10_0000,
    ;
    lemma_running_sum_error(values, n);
    let t = exact_sum(values, n) as int;
    let r = grid(total.magnitude()) as int;
    assert(r <= 2 * t && t <= 2 * r) by (nonlinear_arith)
        requires
            (0x100_0000 - 2 * n) * t <= 0x100_0000 * r <= (0x100_0000 + 2 * n) * t,
            0 < n <= 0x10_0000,
            t >= 0,
    ;
    lemma_inverse(total);
    let inverse = quotient(one(), total);
    lemma_product_keeps_order(values[i], inverse, values[j], inverse);
    lemma_product_keeps_order(values[j], inverse, values[j], inverse);
}

} // verus!
