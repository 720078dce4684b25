//! That the three boxes come as close to the variance of the Gaussian function as any number
//! of smaller and larger boxes can.

use crate::float::arith::{difference, negated, product, quotient, root, sum};
use crate::float::convert::{at_most, floor_usize, less, of_int, rounded_count};
use crate::float::error::{
    lemma_near_scale, lemma_small_rounding_error, lemma_whole_rounding_error,
};
use crate::float::numbers::{one, zero};
use crate::float::order::{
    is_plain, lemma_floor_at_most, lemma_nearest, lemma_nearest_root, lemma_of_int_exact,
    lemma_of_int_keeps_order,
    lemma_product_keeps_order, lemma_product_of_ints, lemma_quotient_keeps_order,
    lemma_quotient_of_ints, lemma_root_keeps_order, lemma_root_of_square, lemma_sum_keeps_order,
    lemma_sum_of_ints, lemma_zero_and_one,
};
use crate::float::repr::{
    exponent, grid, lemma_grid_increases, lemma_parts_of, lemma_significand, significand, F32,
};
use crate::float::round::{nearest, nearest_root};
use crate::gpu::boxes::{
    box_sizes, ideal_width, law_box_sizes, lemma_boxes_fit, lower_box, smaller_boxes,
    twelve_squares,
};
use vstd::arithmetic::power2::{
    lemma2_to64, lemma2_to64_rest, lemma_pow2_adds, lemma_pow2_pos, lemma_pow2_strictly_increases,
    pow2,
};
use vstd::prelude::*;

verus! {

/// How far apart two numbers are.
pub open spec fn apart(a: int, b: int) -> int {
    if a <= b {
        b - a
    } else {
        a - b
    }
}

/// Twelve times the variance of three boxes, `small` of them of size `w` and the others of
/// size `w + 2`: a box of size `w` has the variance `(w * w - 1) / 12`.
pub open spec fn twelve_variances(w: int, small: int) -> int {
    small * (w * w) + (3 - small) * ((w + 2) * (w + 2)) - 3
}

/// Twelve times the variance, with the share of the smaller boxes apart.
proof fn lemma_twelve_variances(w: int, small: int)
    ensures
        twelve_variances(w, small) == 3 * (w * w) + 12 * w + 9 - small * (4 * w + 4),
{
    assert((w + 2) * (w + 2) == w * w + 4 * w + 4) by (nonlinear_arith);
    let s = w * w;
    assert((3 - small) * (s + 4 * w + 4) == 3 * s + 12 * w + 12 - small * s - small * (4 * w + 4))
        by (nonlinear_arith);
}

/// A sum, whatever the signs, is exact but for one rounding.
proof fn lemma_sum_error(a: F32, b: F32)
    requires
        a.is_finite(),
        b.is_finite(),
        apart(a.scaled() + b.scaled(), 0) < pow2(276),
    ensures
        sum(a, b).is_finite(),
        0x100_0000 * apart(sum(a, b).scaled(), a.scaled() + b.scaled()) <= apart(
            a.scaled() + b.scaled(),
            0,
        ),
{
    let exact = a.scaled() + b.scaled();
    let n = apart(exact, 0) as nat;
    lemma_whole_rounding_error(n);
    reveal(sum);
    assert(grid(0) == 0);
    let m = nearest(n, 1);
    lemma_parts_of(exact < 0, m);
    lemma_parts_of(a.negative() && b.negative(), 0);
    let g = grid(m);
    assert(0x100_0000 * g <= 0x100_0000 * n + n && 0x100_0000 * n <= 0x100_0000 * g + n)
        by (nonlinear_arith)
        requires
            (0x100_0000 - 1) * n <= 0x100_0000 * g <= (0x100_0000 + 1) * n,
    ;
}

/// A difference from a whole number, with its rounding error.
proof fn lemma_minus_whole(a: F32, n: nat)
    requires
        a.is_finite(),
        n < 0x100_0000,
        apart(a.scaled(), 0) <= pow2(180),
    ensures
        difference(a, of_int(n as int)).is_finite(),
        ({
            let exact = a.scaled() - n * pow2(149);
            0x100_0000 * apart(difference(a, of_int(n as int)).scaled(), exact) <= apart(exact, 0)
        }),
{
    lemma_of_int_exact(n);
    let b = of_int(n as int);
    lemma_parts_of(true, b.magnitude());
    assert(negated(b).scaled() == -(n * pow2(149)));
    lemma2_to64();
    lemma_pow2_adds(24, 149);
    lemma_pow2_strictly_increases(173, 180);
    lemma_pow2_adds(1, 180);
    lemma_pow2_strictly_increases(181, 276);
    assert(n * pow2(149) <= 0x100_0000 * pow2(149)) by (nonlinear_arith)
        requires
            n <= 0x100_0000,
    ;
    lemma_sum_error(a, negated(b));
}

/// The count that a number rounds to is as close to it as any other count.
proof fn lemma_count_is_nearest(q: F32, k: int)
    requires
        q.is_finite(),
        0 <= k <= 3,
    ensures
        rounded_count(q, 3) <= 3,
        apart(rounded_count(q, 3) as int * pow2(149), q.scaled()) <= apart(
            k * pow2(149),
            q.scaled(),
        ),
{
    reveal(rounded_count);
    let unit = pow2(149) as int;
    lemma_pow2_pos(149);
    let g = grid(q.magnitude()) as int;
    let m = rounded_count(q, 3) as int;
    assert(0 * unit == 0);
    assert(0 <= k * unit) by (nonlinear_arith)
        requires
            k >= 0,
            unit > 0,
    ;
    if !q.negative() {
        let count = (2 * g + unit) / (2 * unit);
        vstd::arithmetic::div_mod::lemma_fundamental_div_mod(2 * g + unit, 2 * unit);
        let rem = (2 * g + unit) % (2 * unit);
        assert((2 * unit) * count == 2 * (count * unit)) by (nonlinear_arith);
        // `2 * g` lies within `unit` of twice the count.
        assert(2 * (count * unit) - unit <= 2 * g < 2 * (count * unit) + unit);
        if count <= 3 {
            if k < count {
                assert(k * unit <= count * unit - unit) by (nonlinear_arith)
                    requires
                        k <= count - 1,
                        unit > 0,
                ;
            } else if k > count {
                assert(k * unit >= count * unit + unit) by (nonlinear_arith)
                    requires
                        k >= count + 1,
                        unit > 0,
                ;
            }
        } else {
            assert(count * unit >= 4 * unit) by (nonlinear_arith)
                requires
                    count >= 4,
                    unit > 0,
            ;
            assert(k * unit <= 3 * unit) by (nonlinear_arith)
                requires
                    k <= 3,
                    unit > 0,
            ;
        }
    }
}

/// Twelve times the square of sigma, with its rounding error.
proof fn lemma_twelve_squares(sigma: F32)
    requires
        is_plain(sigma),
        sigma.is_finite(),
        grid(sigma.magnitude()) <= pow2(159),
    ensures
        ({
            let s = twelve_squares(sigma);
            let unit = pow2(149) as int;
            let g = grid(sigma.magnitude()) as int;
            let exact = 12 * (g * g);
            let got = grid(s.magnitude()) * unit;
            &&& is_plain(s)
            &&& s.is_finite()
            &&& 0x100_0000 * apart(got, exact) <= 3 * exact + unit * unit
            &&& got <= 2 * exact + unit * unit
            &&& grid(s.magnitude()) <= pow2(176)
        }),
{
    let unit = pow2(149) as int;
    let g = grid(sigma.magnitude()) as int;
    let exact = 12 * (g * g);
    lemma_of_int_exact(12);
    lemma_pow2_pos(149);
    lemma2_to64();
    lemma2_to64_rest();
    lemma_pow2_adds(4, 159);
    lemma_pow2_strictly_increases(163, 276);
    // The product with twelve.
    assert((12 * unit) * g < unit * pow2(276)) by (nonlinear_arith)
        requires
            12 * g < pow2(276),
            unit > 0,
    ;
    let n = ((12 * pow2(149)) * grid(sigma.magnitude())) as nat;
    lemma_small_rounding_error(n, pow2(149));
    let m = nearest(n, pow2(149));
    let first = product(of_int(12), sigma);
    assert(first == F32::of(false, m)) by {
        reveal(product);
    }
    lemma_parts_of(false, m);
    let p = grid(m) as int;
    assert(n == (12 * g) * unit) by (nonlinear_arith)
        requires
            n == (12 * unit) * g,
    ;
    let tg = 12 * g;
    assert(0x100_0000 * p <= 0x100_0000 * tg + tg + 0x80_0000) by (nonlinear_arith)
        requires
            0x100_0000 * (p * unit) <= 0x100_0000 * (tg * unit) + tg * unit + 0x80_0000 * unit,
            unit > 0,
    ;
    assert(0x100_0000 * tg <= 0x100_0000 * p + tg + 0x80_0000) by (nonlinear_arith)
        requires
            0x100_0000 * (tg * unit) <= 0x100_0000 * (p * unit) + tg * unit + 0x80_0000 * unit,
            unit > 0,
    ;
    // The product with sigma.
    let pg = p * g;
    assert(tg * g == exact) by (nonlinear_arith)
        requires
            tg == 12 * g,
            exact == 12 * (g * g),
    ;
    assert(0x100_0000 * pg <= 0x100_0000 * exact + exact + 0x80_0000 * g && 0x100_0000 * exact
        <= 0x100_0000 * pg + exact + 0x80_0000 * g) by (nonlinear_arith)
        requires
            pg == p * g,
            tg * g == exact,
            0x100_0000 * p <= 0x100_0000 * tg + tg + 0x80_0000,
            0x100_0000 * tg <= 0x100_0000 * p + tg + 0x80_0000,
            g >= 0,
    ;
    lemma_pow2_adds(159, 159);
    lemma_pow2_adds(4, 318);
    lemma_pow2_adds(1, 322);
    lemma_pow2_adds(1, 323);
    lemma_pow2_adds(149, 276);
    lemma_pow2_strictly_increases(324, 425);
    lemma_pow2_strictly_increases(159, 318);
    assert(0 <= g * g <= pow2(318)) by (nonlinear_arith)
        requires
            0 <= g <= pow2(159),
            pow2(318) == pow2(159) * pow2(159),
    ;
    assert(0 <= pg) by (nonlinear_arith)
        requires
            pg == p * g,
            p >= 0,
            g >= 0,
    ;
    assert(pg <= pow2(323));
    lemma_small_rounding_error(pg as nat, pow2(149));
    let k = nearest(pg as nat, pow2(149));
    let s = twelve_squares(sigma);
    assert(s == F32::of(false, k)) by {
        reveal(product);
    }
    lemma_parts_of(false, k);
    let got = grid(k) * unit;
    // The slack in the units of the result is small.
    lemma_pow2_adds(10, 149);
    lemma_pow2_adds(34, 115);
    lemma_pow2_pos(115);
    assert(0x80_0000 * unit + 0x80_0000 * g + g <= unit * unit) by (nonlinear_arith)
        requires
            g <= 1024 * unit,
            unit == 0x4_0000_0000 * pow2(115),
            pow2(115) >= 1,
    ;
    assert(0x100_0000 * apart(got, exact) <= 3 * exact + unit * unit);
    assert(got <= 2 * exact + unit * unit);
    lemma_pow2_adds(149, 149);
    lemma_pow2_strictly_increases(298, 323);
    lemma_pow2_adds(149, 176);
    lemma_pow2_adds(1, 324);
    assert(grid(k) <= pow2(176)) by (nonlinear_arith)
        requires
            grid(k) * unit <= unit * pow2(176),
            unit > 0,
    ;
}

/// The divisor of the formula for the number of smaller boxes is exact.
proof fn lemma_denominator(w: nat)
    requires
        0 < w <= 0x1000,
    ensures
        ({
            let d = difference(product(of_int(-4), of_int(w as int)), of_int(4));
            &&& d.negative()
            &&& d.is_finite()
            &&& grid(d.magnitude()) == (4 * w + 4) * pow2(149)
        }),
{
    lemma_of_int_exact(4);
    lemma_of_int_exact(w);
    lemma_of_int_exact(4 * w);
    lemma_of_int_exact(4 * w + 4);
    lemma_product_of_ints(4, w);
    lemma_sum_of_ints(4 * w, 4);
    lemma_pow2_pos(149);
    let unit = pow2(149);
    assert((4 * w) * unit > 0) by (nonlinear_arith)
        requires
            w > 0,
            unit > 0,
    ;
    assert((4 * w) * unit + 4 * unit == (4 * w + 4) * unit) by (nonlinear_arith);
    let m = of_int(4).magnitude();
    assert(of_int(-4) == F32::of(true, m)) by {
        reveal(of_int);
        lemma_nearest(4 * unit, 1);
        lemma_parts_of(false, nearest(4 * unit, 1));
    }
    lemma_parts_of(true, m);
    let k = of_int((4 * w) as int).magnitude();
    assert(product(of_int(-4), of_int(w as int)) == F32::of(true, k)) by {
        reveal(product);
        let n = (4 * unit) * (w * unit);
        lemma_nearest(n, unit);
        lemma_parts_of(false, nearest(n, unit));
        assert(product(of_int(4), of_int(w as int)) == F32::of(false, nearest(n, unit)));
    }
    lemma_parts_of(true, k);
    let l = of_int((4 * w + 4) as int).magnitude();
    assert(difference(F32::of(true, k), of_int(4)) == F32::of(true, l)) by {
        reveal(sum);
        let n = (4 * w + 4) * unit;
        lemma_nearest(n, 1);
        lemma_parts_of(false, nearest(n, 1));
        assert(sum(of_int((4 * w) as int), of_int(4)) == F32::of(false, nearest(n, 1)));
    }
    lemma_parts_of(true, l);
}

/// The three differences of the formula, with their rounding errors put together.
proof fn lemma_numerator(s: F32, w: nat)
    requires
        is_plain(s),
        s.is_finite(),
        grid(s.magnitude()) <= pow2(176),
        0 < w <= 2049,
    ensures
        ({
            let wi = w as int;
            let n = difference(
                difference(difference(s, of_int(3 * wi * wi)), of_int(12 * wi)),
                of_int(9),
            );
            let unit = pow2(149) as int;
            let b = (3 * (wi * wi) + 12 * wi + 9) * unit;
            let g = grid(s.magnitude()) as int;
            &&& n.is_finite()
            &&& 0x100_0000 * apart(n.scaled(), g - b) <= 5 * (g + b)
            &&& apart(n.scaled(), 0) <= 2 * (g + b)
            &&& g + b <= pow2(178)
        }),
{
    let wi = w as int;
    let unit = pow2(149) as int;
    let g = grid(s.magnitude()) as int;
    let ww = wi * wi;
    assert(3 * wi * wi == 3 * ww) by (nonlinear_arith)
        requires
            ww == wi * wi,
    ;
    assert(0 < ww <= 0x40_1001) by (nonlinear_arith)
        requires
            ww == wi * wi,
            0 < wi <= 2049,
    ;
    let (x, y, z) = ((3 * ww) * unit, (12 * wi) * unit, 9 * unit);
    let b = (3 * ww + 12 * wi + 9) * unit;
    assert(b == x + y + z) by (nonlinear_arith)
        requires
            b == (3 * ww + 12 * wi + 9) * unit,
            x == (3 * ww) * unit,
            y == (12 * wi) * unit,
            z == 9 * unit,
    ;
    lemma_pow2_pos(149);
    lemma2_to64();
    lemma_pow2_adds(24, 149);
    lemma_pow2_adds(1, 176);
    lemma_pow2_adds(1, 177);
    lemma_pow2_adds(1, 178);
    lemma_pow2_adds(1, 179);
    lemma_pow2_strictly_increases(173, 176);
    assert(0 <= x && 0 <= y && 0 <= z && b <= 0x100_0000 * unit) by (nonlinear_arith)
        requires
            b == (3 * ww + 12 * wi + 9) * unit,
            x == (3 * ww) * unit,
            y == (12 * wi) * unit,
            z == 9 * unit,
            0 < ww <= 0x40_1001,
            0 < wi <= 2049,
            unit > 0,
    ;
    assert(g + b <= pow2(177));
    let first = difference(s, of_int(3 * wi * wi));
    lemma_minus_whole(s, (3 * ww) as nat);
    let second = difference(first, of_int(12 * wi));
    lemma_minus_whole(first, (12 * wi) as nat);
    lemma_minus_whole(second, 9);
}

/// The quotient of the formula, with its rounding error: the quotient times `d` is close to
/// the numerator with the other sign.
proof fn lemma_ideal_count(n: F32, denominator: F32, d: nat)
    requires
        n.is_finite(),
        apart(n.scaled(), 0) <= pow2(180),
        denominator.negative(),
        denominator.is_finite(),
        d > 0,
        grid(denominator.magnitude()) == d * pow2(149),
    ensures
        quotient(n, denominator).is_finite(),
        0x100_0000 * apart(d * quotient(n, denominator).scaled(), -n.scaled()) <= apart(
            n.scaled(),
            0,
        ) + 0x80_0000 * d,
{
    let unit = pow2(149);
    let g = grid(n.magnitude());
    lemma_pow2_pos(149);
    lemma_pow2_strictly_increases(180, 276);
    assert(grid(0) == 0);
    assert(d * unit > 0) by (nonlinear_arith)
        requires
            d > 0,
            unit > 0,
    ;
    assert(g * unit < (d * unit) * pow2(276)) by (nonlinear_arith)
        requires
            g < pow2(276),
            d > 0,
            unit > 0,
    {
        assert(g * unit < pow2(276) * unit);
        assert((d * unit) * pow2(276) >= (1 * unit) * pow2(276));
    }
    lemma_small_rounding_error(g * unit, d * unit);
    let m = nearest(g * unit, d * unit);
    let q = quotient(n, denominator);
    assert(q == F32::of(!n.negative(), m)) by {
        reveal(quotient);
    }
    lemma_parts_of(!n.negative(), m);
    let k = grid(m);
    let dk = d * k;
    assert(k * (d * unit) == dk * unit && 0x80_0000 * (d * unit) == (0x80_0000 * d) * unit)
        by (nonlinear_arith)
        requires
            dk == d * k,
    ;
    let e = 0x80_0000 * d;
    assert(0x100_0000 * dk <= 0x100_0000 * g + g + e) by (nonlinear_arith)
        requires
            0x100_0000 * (dk * unit) <= 0x100_0000 * (g * unit) + g * unit + e * unit,
            unit > 0,
    ;
    assert(0x100_0000 * g <= 0x100_0000 * dk + g + e) by (nonlinear_arith)
        requires
            0x100_0000 * (g * unit) <= 0x100_0000 * (dk * unit) + g * unit + e * unit,
            unit > 0,
    ;
    assert(d * q.scaled() == if n.negative() {
        dk as int
    } else {
        -(dk as int)
    }) by (nonlinear_arith)
        requires
            dk == d * k,
            q.scaled() == (if n.negative() {
                k as int
            } else {
                -(k as int)
            }),
    ;
}

/// The nearest count gives the nearest variance, but for the roundings.
proof fn lemma_nearest_variance(
    q: int,
    d: int,
    b: int,
    s: int,
    t: int,
    unit: int,
    small: int,
    other: int,
)
    requires
        unit > 0,
        d > 0,
        b >= 24,
        s >= 0,
        t >= 0,
        apart(small * unit, q) <= apart(other * unit, q),
        0x100_0000 * apart(d * q, b * unit - s) <= 8 * (s + b * unit),
        0x100_0000 * apart(s * unit, t) <= 3 * t + unit * unit,
        s * unit <= 2 * t + unit * unit,
    ensures
        0x100_0000 * apart((b - small * d) * (unit * unit), t) <= 0x100_0000 * apart(
            (b - other * d) * (unit * unit),
            t,
        ) + 40 * (t + b * (unit * unit)),
{
    let z = s + b * unit;
    let dq = d * q;
    let square = unit * unit;
    let (ds, dm) = (d * (small * unit), d * (other * unit));
    assert(apart(ds, dq) <= apart(dm, dq)) by (nonlinear_arith)
        requires
            apart(small * unit, q) <= apart(other * unit, q),
            d > 0,
            ds == d * (small * unit),
            dm == d * (other * unit),
            dq == d * q,
    ;
    let bu = b * unit;
    let (vs, vm) = ((b - small * d) * unit, (b - other * d) * unit);
    assert(vs == bu - ds && vm == bu - dm) by (nonlinear_arith)
        requires
            vs == (b - small * d) * unit,
            vm == (b - other * d) * unit,
            bu == b * unit,
            ds == d * (small * unit),
            dm == d * (other * unit),
    ;
    assert(0x100_0000 * apart(vs, s) <= 0x100_0000 * apart(vm, s) + 16 * z);
    let (vsu, vmu, su, zu) = (vs * unit, vm * unit, s * unit, z * unit);
    assert(0x100_0000 * apart(vsu, su) <= 0x100_0000 * apart(vmu, su) + 16 * zu)
        by (nonlinear_arith)
        requires
            0x100_0000 * apart(vs, s) <= 0x100_0000 * apart(vm, s) + 16 * z,
            vsu == vs * unit,
            vmu == vm * unit,
            su == s * unit,
            zu == z * unit,
            unit > 0,
    {
        assert(apart(vsu, su) == apart(vs, s) * unit);
        assert(apart(vmu, su) == apart(vm, s) * unit);
    }
    let bs = b * square;
    assert(zu == su + bs) by (nonlinear_arith)
        requires
            zu == z * unit,
            z == s + b * unit,
            su == s * unit,
            bs == b * square,
            square == unit * unit,
    ;
    assert(24 * square <= bs) by (nonlinear_arith)
        requires
            b >= 24,
            bs == b * square,
            square == unit * unit,
    ;
    assert(vsu == (b - small * d) * square && vmu == (b - other * d) * square)
        by (nonlinear_arith)
        requires
            vsu == vs * unit,
            vmu == vm * unit,
            vs == (b - small * d) * unit,
            vm == (b - other * d) * unit,
            square == unit * unit,
    ;
}

/// The size of the smaller box for a sigma of up to 1024.
pub proof fn lemma_lower_box(sigma: F32)
    requires
        less(zero(), sigma),
        at_most(sigma, of_int(1024)),
    ensures
        is_plain(sigma),
        sigma.is_finite(),
        grid(sigma.magnitude()) <= pow2(159),
        0 < lower_box(sigma) <= 2049,
{
    lemma_zero_and_one();
    lemma_of_int_exact(12);
    lemma_of_int_exact(3);
    lemma_of_int_exact(1024);
    lemma_of_int_exact(12288);
    lemma_of_int_exact(12582912);
    lemma_of_int_exact(4194304);
    lemma_of_int_exact(4194305);
    lemma_of_int_exact(4198401);
    assert(grid(0) == 0);
    lemma2_to64();
    lemma_pow2_adds(10, 149);
    if sigma.magnitude() < of_int(1024).magnitude() {
        lemma_grid_increases(sigma.magnitude(), of_int(1024).magnitude());
    }
    assert(!of_int(3).is_zero()) by {
        lemma_pow2_pos(149);
    }
    lemma_product_keeps_order(of_int(12), sigma, of_int(12), of_int(1024));
    lemma_product_of_ints(12, 1024);
    lemma_product_keeps_order(product(of_int(12), sigma), sigma, of_int(12288), of_int(1024));
    lemma_product_of_ints(12288, 1024);
    lemma_quotient_keeps_order(twelve_squares(sigma), of_int(12582912), of_int(3));
    lemma_quotient_of_ints(4194304, 3);
    let x = quotient(twelve_squares(sigma), of_int(3));
    lemma_sum_keeps_order(x, of_int(4194304), one());
    lemma_sum_of_ints(4194304, 1);
    lemma_of_int_keeps_order(4194305, 4198401);
    lemma_root_keeps_order(sum(x, one()), of_int(4198401));
    lemma_root_of_square(2049);
    lemma_floor_at_most(ideal_width(sigma), 2049);
    law_box_sizes(sigma);
}

/// No other number of smaller boxes brings the variance of the three closer to that of the
/// Gaussian function, but for the roundings of the formula: by no more than 40 parts in `2^24`
/// of the two variances. Where another number is as close but for that, either may be taken.
pub proof fn law_boxes_come_closest(sigma: F32, other: int)
    requires
        less(zero(), sigma),
        at_most(sigma, of_int(1024)),
        0 <= other <= 3,
    ensures
        smaller_boxes(sigma) <= 3,
        ({
            let w = lower_box(sigma) as int;
            let g = grid(sigma.magnitude()) as int;
            // One, in the units that the square of sigma is in.
            let square = (pow2(149) * pow2(149)) as int;
            let wanted = 12 * (g * g);
            let most = twelve_variances(w, 0);
            0x100_0000 * apart(twelve_variances(w, smaller_boxes(sigma) as int) * square, wanted)
                <= 0x100_0000 * apart(twelve_variances(w, other) * square, wanted) + 40 * (wanted
                + most * square)
        }),
{
    lemma_lower_box(sigma);
    lemma_twelve_squares(sigma);
    let w = lower_box(sigma);
    let wi = w as int;
    let unit = pow2(149) as int;
    let s = twelve_squares(sigma);
    lemma_numerator(s, w);
    let n = difference(
        difference(difference(s, of_int(3 * wi * wi)), of_int(12 * wi)),
        of_int(9),
    );
    lemma_denominator(w);
    let denominator = difference(product(of_int(-4), of_int(wi)), of_int(4));
    lemma2_to64();
    lemma_pow2_adds(1, 178);
    lemma_pow2_strictly_increases(179, 180);
    lemma_ideal_count(n, denominator, (4 * w + 4) as nat);
    let q = quotient(n, denominator);
    lemma_count_is_nearest(q, other);
    let small = smaller_boxes(sigma) as int;
    let d = 4 * wi + 4;
    let b = 3 * (wi * wi) + 12 * wi + 9;
    let g = grid(sigma.magnitude()) as int;
    let got = grid(s.magnitude()) as int;
    assert(b >= 24 && b >= d) by (nonlinear_arith)
        requires
            b == 3 * (wi * wi) + 12 * wi + 9,
            d == 4 * wi + 4,
            wi >= 1,
    ;
    lemma_pow2_adds(23, 126);
    lemma_pow2_pos(126);
    assert(0x80_0000 * d <= b * unit) by (nonlinear_arith)
        requires
            b >= d,
            d > 0,
            unit == 0x80_0000 * pow2(126),
            pow2(126) >= 1,
    ;
    assert(g * g >= 0) by (nonlinear_arith);
    lemma_nearest_variance(q.scaled(), d, b, got, 12 * (g * g), unit, small, other);
    lemma_twelve_variances(wi, small);
    lemma_twelve_variances(wi, other);
    lemma_twelve_variances(wi, 0);
}

/// For every sigma of up to 32 in steps of a quarter, no other number of smaller boxes brings
/// the variance of the three closer to that of the Gaussian function.
pub proof fn law_boxes_are_best_for_quarters(sigma: F32, quarters: int, other: int)
    requires
        is_plain(sigma),
        0 < quarters <= 128,
        grid(sigma.magnitude()) == quarters * pow2(147),
        0 <= other <= 3,
    ensures
        smaller_boxes(sigma) <= 3,
        ({
            let w = lower_box(sigma) as int;
            let wanted = 12 * (quarters * quarters);
            apart(16 * twelve_variances(w, smaller_boxes(sigma) as int), wanted) <= apart(
                16 * twelve_variances(w, other),
                wanted,
            )
        }),
{
    let q = quarters;
    let step = pow2(147) as int;
    lemma2_to64();
    lemma_pow2_adds(2, 147);
    lemma_pow2_pos(147);
    lemma_zero_and_one();
    lemma_of_int_exact(32);
    lemma_of_int_exact(1024);
    lemma_of_int_keeps_order(32, 1024);
    assert(grid(0) == 0);
    assert(0 < q * step <= 128 * step) by (nonlinear_arith)
        requires
            0 < q <= 128,
            step > 0,
    ;
    if sigma.magnitude() > of_int(32).magnitude() {
        lemma_grid_increases(of_int(32).magnitude(), sigma.magnitude());
    }
    assert(less(zero(), sigma) && at_most(sigma, of_int(32)));
    lemma_boxes_fit(sigma);
    law_boxes_come_closest(sigma, other);
    let w = lower_box(sigma) as int;
    let small = smaller_boxes(sigma) as int;
    let (a, b, most) = (
        twelve_variances(w, small),
        twelve_variances(w, other),
        twelve_variances(w, 0),
    );
    assert(most <= 13464) by {
        lemma_twelve_variances(w, 0);
        assert(w * w <= 4225) by (nonlinear_arith)
            requires
                0 <= w <= 65,
        ;
    }
    let qq = q * q;
    let wanted = 12 * qq;
    assert(0 < qq <= 0x4000) by (nonlinear_arith)
        requires
            qq == q * q,
            0 < q <= 128,
    ;
    // Everything in the law is a multiple of the square of a quarter.
    let f = step * step;
    let g = q * step;
    let square = pow2(149) * pow2(149);
    assert(12 * (g * g) == wanted * f) by (nonlinear_arith)
        requires
            g == q * step,
            wanted == 12 * (q * q),
            f == step * step,
    ;
    assert(square == 16 * f) by (nonlinear_arith)
        requires
            square == pow2(149) * pow2(149),
            pow2(149) == 4 * step,
            f == step * step,
    ;
    assert(f > 0) by (nonlinear_arith)
        requires
            f == step * step,
            step > 0,
    ;
    assert(a * square == (16 * a) * f && b * square == (16 * b) * f && most * square == (16 * most)
        * f) by (nonlinear_arith)
        requires
            square == 16 * f,
    ;
    let (x, y, z) = (16 * a, 16 * b, 16 * most);
    assert(0x100_0000 * apart(x, wanted) <= 0x100_0000 * apart(y, wanted) + 40 * (wanted + z))
        by (nonlinear_arith)
        requires
            0x100_0000 * apart(x * f, wanted * f) <= 0x100_0000 * apart(y * f, wanted * f) + 40 * (
            wanted * f + z * f),
            f > 0,
    {
        assert(apart(x * f, wanted * f) == apart(x, wanted) * f);
        assert(apart(y * f, wanted * f) == apart(y, wanted) * f);
        assert(wanted * f + z * f == (wanted + z) * f);
    }
}

/// What a square root whose whole part is odd or one more says of the number under it.
proof fn lemma_under_root(x: F32, w: nat)
    requires
        is_plain(x),
        x.is_finite(),
        !x.is_zero(),
        0 < w <= 2049,
        w <= floor_usize(root(x)) < w + 2,
    ensures
        ({
            let unit = pow2(149);
            let square = unit * unit;
            let under = grid(x.magnitude()) * unit;
            &&& (0x100_0000 - 2) * ((w * w) * square) <= 0x100_0000 * under
            &&& under <= ((w + 2) * (w + 2)) * square
        }),
{
    let unit = pow2(149);
    let under = grid(x.magnitude()) * unit;
    let m = nearest_root(under);
    lemma_nearest_root(under);
    assert(root(x) == F32::of(false, m)) by {
        reveal(root);
    }
    lemma_parts_of(false, m);
    lemma_pow2_pos(149);
    let g = grid(m);
    vstd::arithmetic::div_mod::lemma_fundamental_div_mod(g as int, unit as int);
    let whole = g as int / unit as int;
    assert(w <= whole < w + 2) by {
        reveal(floor_usize);
    }
    assert(w * unit <= g < (w + 2) * unit) by (nonlinear_arith)
        requires
            g == unit * whole + g as int % unit as int,
            0 <= g as int % unit as int,
            (g as int % unit as int) < unit,
            w <= whole <= w + 1,
            unit > 0,
    ;
    // From below.
    lemma_of_int_exact(w);
    let k = of_int(w as int).magnitude();
    assert(w * unit > 0) by (nonlinear_arith)
        requires
            w > 0,
            unit > 0,
    ;
    assert(grid(0) == 0);
    let below = (k - 1) as nat;
    lemma_significand(below);
    lemma_significand(k);
    let e = exponent(below);
    let step = pow2(e);
    let digits = significand(below);
    assert((digits + 1) * step == digits * step + step) by (nonlinear_arith);
    assert(grid(k) == grid(below) + step);
    lemma_pow2_pos(e);
    if e == 0 {
        lemma2_to64();
        lemma_pow2_strictly_increases(24, 149);
    }
    assert(0x80_0000 * step <= w * unit) by {
        if e > 0 {
            assert(significand(below) * step >= 0x80_0000 * step) by (nonlinear_arith)
                requires
                    significand(below) >= 0x80_0000,
            ;
        } else {
            assert(w * unit >= unit) by (nonlinear_arith)
                requires
                    w >= 1,
            ;
        }
    }
    if m < k {
        lemma_grid_increases(m, k);
    }
    if k < m {
        lemma_grid_increases(below, (m - 1) as nat);
    }
    let low = grid((m - 1) as nat) + g;
    let wu = w * unit;
    assert(0x80_0000 * low >= (0x100_0000 - 1) * wu);
    assert((0x100_0000 - 2) * (wu * wu) <= 0x100_0000 * under) by (nonlinear_arith)
        requires
            0x80_0000 * low >= (0x100_0000 - 1) * wu,
            4 * under >= low * low,
            wu >= 0,
            low >= 0,
    {
        assert((0x80_0000 * low) * (0x80_0000 * low) >= ((0x100_0000 - 1) * wu) * ((0x100_0000 - 1)
            * wu));
        assert((0x100_0000 - 1) * (0x100_0000 - 1) >= 0x100_0000 * (0x100_0000 - 2));
        assert(((0x100_0000 - 1) * (0x100_0000 - 1)) * (wu * wu) >= (0x100_0000 * (0x100_0000 - 2))
            * (wu * wu));
        assert((0x80_0000 * 0x80_0000) * (low * low) <= (0x80_0000 * 0x80_0000) * (4 * under));
    }
    assert(wu * wu == (w * w) * (unit * unit)) by (nonlinear_arith)
        requires
            wu == w * unit,
    ;
    // From above.
    lemma_of_int_exact(w + 2);
    let h = of_int((w + 2) as int).magnitude();
    if h <= m {
        if h < m {
            lemma_grid_increases(h, m);
        }
    }
    if m + 1 < h {
        lemma_grid_increases(m + 1, h);
    }
    let high = g + grid(m + 1);
    let hu = (w + 2) * unit;
    assert(high <= 2 * hu);
    assert(under <= hu * hu) by (nonlinear_arith)
        requires
            4 * under <= high * high,
            0 <= high <= 2 * hu,
    ;
    assert(hu * hu == ((w + 2) * (w + 2)) * (unit * unit)) by (nonlinear_arith)
        requires
            hu == (w + 2) * unit,
    ;
}

/// The smaller box is at most, and the larger one at least, as wide as three equal boxes with the
/// variance of the Gaussian function would be, but for the roundings.
proof fn lemma_boxes_enclose(sigma: F32)
    requires
        less(zero(), sigma),
        at_most(sigma, of_int(1024)),
    ensures
        ({
            let w = lower_box(sigma) as int;
            let g = grid(sigma.magnitude()) as int;
            let square = (pow2(149) * pow2(149)) as int;
            let wanted = 12 * (g * g);
            let low = (w * w) * square;
            let high = ((w + 2) * (w + 2)) * square;
            &&& 0x100_0000 * (3 * low - 3 * square) <= 0x100_0000 * wanted + 10 * wanted + 20 * high
            &&& 0x100_0000 * wanted <= 0x100_0000 * (3 * high - 3 * square) + 10 * wanted + 20
                * high
        }),
{
    lemma_lower_box(sigma);
    lemma_twelve_squares(sigma);
    law_box_sizes(sigma);
    let s = twelve_squares(sigma);
    let unit = pow2(149);
    let square = unit * unit;
    let w = lower_box(sigma);
    lemma_pow2_pos(149);
    lemma2_to64();
    lemma_pow2_adds(1, 176);
    lemma_pow2_pos(176);
    lemma_pow2_strictly_increases(177, 276);
    lemma_pow2_adds(25, 124);
    lemma_pow2_pos(124);
    lemma_of_int_exact(3);
    let sg = grid(s.magnitude());
    let d = 3 * unit;
    assert(sg * unit < d * pow2(276)) by (nonlinear_arith)
        requires
            sg < pow2(276),
            d == 3 * unit,
            unit > 0,
    ;
    lemma_small_rounding_error(sg * unit, d);
    let third = quotient(s, of_int(3));
    let q = nearest(sg * unit, d);
    assert(grid(0) == 0);
    assert(third == F32::of(false, q)) by {
        reveal(quotient);
    }
    lemma_parts_of(false, q);
    let qg = grid(q);
    lemma_zero_and_one();
    lemma_of_int_exact(1);
    assert(0x80_0000 * d <= square) by (nonlinear_arith)
        requires
            d == 3 * unit,
            unit == 0x200_0000 * pow2(124),
            pow2(124) >= 1,
            square == unit * unit,
    ;
    let su = sg * unit;
    let qu = qg * unit;
    assert(qg * d == 3 * qu) by (nonlinear_arith)
        requires
            d == 3 * unit,
            qu == qg * unit,
    ;
    assert(qg <= pow2(177)) by (nonlinear_arith)
        requires
            0x100_0000 * (3 * (qg * unit)) <= 0x100_0000 * (sg * unit) + sg * unit + 0x80_0000 * (3
                * unit),
            sg <= pow2(176),
            pow2(177) == 2 * pow2(176),
            pow2(176) >= 1,
            unit > 0,
    {
        assert(0x100_0000 * (3 * qg) <= 0x100_0001 * sg + 0x80_0000 * 3);
    }
    lemma_pow2_adds(1, 177);
    lemma_pow2_strictly_increases(149, 177);
    lemma_pow2_strictly_increases(178, 276);
    crate::brightness::lemma_sum_error(third, one());
    let x = sum(third, one());
    let xg = grid(x.magnitude());
    let xu = xg * unit;
    assert(xg > 0);
    lemma_under_root(x, w);
    assert((qg + unit) * unit == qu + square) by (nonlinear_arith)
        requires
            qu == qg * unit,
            square == unit * unit,
    ;
    lemma_near_scale(xg as int, (qg + unit) as int, unit as int, 1);
    let g = grid(sigma.magnitude()) as int;
    let wanted = 12 * (g * g);
    assert(wanted >= 0) by (nonlinear_arith)
        requires
            wanted == 12 * (g * g),
    ;
    let low = (w * w) * square;
    let high = ((w + 2) * (w + 2)) * square;
    assert(square <= low <= high) by (nonlinear_arith)
        requires
            low == (w * w) * square,
            high == ((w + 2) * (w + 2)) * square,
            w >= 1,
            square > 0,
    {
        assert(w * w >= 1);
        assert((w + 2) * (w + 2) >= w * w);
    }
}

/// The three boxes have together the variance of the Gaussian function, but for half of what one
/// box more or less of the smaller size makes, and for the roundings of the formula: by no more
/// than 100 parts in `2^24`. Twelve times the variance of a box is the square of its size less one.
pub proof fn law_boxes_have_the_variance(sigma: F32)
    requires
        less(zero(), sigma),
        at_most(sigma, of_int(1024)),
    ensures
        ({
            let a = box_sizes(sigma)[0] as int;
            let b = box_sizes(sigma)[1] as int;
            let c = box_sizes(sigma)[2] as int;
            let g = grid(sigma.magnitude()) as int;
            // One, in the units that the square of sigma is in.
            let square = (pow2(149) * pow2(149)) as int;
            let wanted = 12 * (g * g);
            let got = (a * a + b * b + c * c - 3) * square;
            &&& 1 <= a <= b <= c <= a + 2
            &&& a % 2 == 1 && b % 2 == 1 && c % 2 == 1
            &&& 0x100_0000 * apart(got, wanted) <= 0x100_0000 * ((2 * a + 2) * square) + 100 * (
            wanted + 3 * ((a + 2) * (a + 2)) * square)
        }),
{
    law_box_sizes(sigma);
    lemma_lower_box(sigma);
    lemma_boxes_enclose(sigma);
    let w = lower_box(sigma) as int;
    let g = grid(sigma.magnitude()) as int;
    let square = (pow2(149) * pow2(149)) as int;
    let wanted = 12 * (g * g);
    let low = (w * w) * square;
    let high = ((w + 2) * (w + 2)) * square;
    let step = (4 * w + 4) * square;
    lemma_pow2_pos(149);
    assert(square > 0 && high == low + step && step >= 0 && low >= 0 && wanted >= 0)
        by (nonlinear_arith)
        requires
            square == pow2(149) * pow2(149),
            pow2(149) > 0,
            low == (w * w) * square,
            high == ((w + 2) * (w + 2)) * square,
            step == (4 * w + 4) * square,
            wanted == 12 * (g * g),
            w >= 1,
    ;
    let most = 3 * high - 3 * square;
    let other: int = if 2 * wanted >= 2 * most - step {
        0
    } else if 2 * wanted >= 2 * most - 3 * step {
        1
    } else if 2 * wanted >= 2 * most - 5 * step {
        2
    } else {
        3
    };
    law_boxes_come_closest(sigma, other);
    let small = smaller_boxes(sigma) as int;
    lemma_scaled_variances(w, other, square);
    lemma_scaled_variances(w, small, square);
    lemma_scaled_variances(w, 0, square);
    let at = twelve_variances(w, other) * square;
    let got = twelve_variances(w, small) * square;
    assert(other * step == if other == 0 {
        0
    } else if other == 1 {
        step
    } else if other == 2 {
        2 * step
    } else {
        3 * step
    }) by (nonlinear_arith)
        requires
            0 <= other <= 3,
    ;
    assert(other == 0 || other == 1 || other == 2 || other == 3);
    assert(at == most || at == most - step || at == most - 2 * step || at == most - 3 * step);
    assert(low == high - step);
    assert(0x200_0000 * apart(at, wanted) <= 0x100_0000 * step + 2 * (10 * wanted + 20 * high));
    assert(0x200_0000 * apart(got, wanted) <= 0x100_0000 * step + 2 * (50 * wanted + 60 * (3
        * high)));
    let a = box_sizes(sigma)[0] as int;
    let b = box_sizes(sigma)[1] as int;
    let c = box_sizes(sigma)[2] as int;
    assert(a * a + b * b + c * c - 3 == twelve_variances(w, small)) by {
        let (p, q) = (w * w, (w + 2) * (w + 2));
        assert(small * p + (3 - small) * q == if small == 0 {
            q + q + q
        } else if small == 1 {
            p + q + q
        } else if small == 2 {
            p + p + q
        } else {
            p + p + p
        }) by (nonlinear_arith)
            requires
                0 <= small <= 3,
        ;
    }
    assert(step <= 2 * ((2 * a + 2) * square)) by (nonlinear_arith)
        requires
            step == (4 * w + 4) * square,
            w <= a,
            square > 0,
    ;
    let wide = 3 * ((a + 2) * (a + 2)) * square;
    assert(3 * high <= wide) by (nonlinear_arith)
        requires
            high == ((w + 2) * (w + 2)) * square,
            wide == 3 * ((a + 2) * (a + 2)) * square,
            1 <= w <= a,
            square > 0,
    {
        assert((w + 2) * (w + 2) <= (a + 2) * (a + 2));
    }
}

/// Twelve variances in the units that the square of sigma is in.
proof fn lemma_scaled_variances(w: int, small: int, square: int)
    ensures
        twelve_variances(w, small) * square == 3 * (((w + 2) * (w + 2)) * square) - 3 * square
            - small * ((4 * w + 4) * square),
{
    lemma_twelve_variances(w, small);
    let v = twelve_variances(w, small);
    assert(v == 3 * ((w + 2) * (w + 2)) - 3 - small * (4 * w + 4)) by (nonlinear_arith)
        requires
            v == 3 * (w * w) + 12 * w + 9 - small * (4 * w + 4),
    ;
    let h = (w + 2) * (w + 2);
    let d = 4 * w + 4;
    assert((3 * h - 3 - small * d) * square == 3 * (h * square) - 3 * square - small * (d * square))
        by (nonlinear_arith);
}

} // verus!
