//! Rounding keeps the order of values, and leaves small whole numbers as they are.

use super::arith::{product, quotient, root, sum};
use super::convert::{byte_of, floor_usize, of_int};
use super::numbers::{one, zero};
use super::repr::{
    grid, lemma_grid_increases, lemma_grid_split, lemma_of_parts, lemma_parts_of, F32,
    INF_MAGNITUDE,
};
use super::round::{
    is_nearest, is_nearest_root, lemma_mid_increases, lemma_nearest_exact, nearest, nearest_root,
};
use vstd::arithmetic::power2::{
    lemma2_to64, lemma_pow2_adds, lemma_pow2_pos, lemma_pow2_strictly_increases, lemma_pow2_unfold,
    pow2,
};
use vstd::prelude::*;

verus! {

/// Looks for the magnitude that a quotient rounds to, from `m` upwards.
proof fn lemma_nearest_from(n: nat, d: nat, m: nat) -> (r: nat)
    requires
        d > 0,
        m <= INF_MAGNITUDE,
        m > 0 ==> {
            ||| 2 * n > d * (grid((m - 1) as nat) + grid(m))
            ||| 2 * n == d * (grid((m - 1) as nat) + grid(m)) && m % 2 == 0
        },
    ensures
        is_nearest(n, d, r),
    decreases INF_MAGNITUDE - m,
{
    if is_nearest(n, d, m) {
        m
    } else {
        lemma_nearest_from(n, d, m + 1)
    }
}

/// Every quotient rounds to some magnitude.
pub proof fn lemma_nearest(n: nat, d: nat)
    requires
        d > 0,
    ensures
        is_nearest(n, d, nearest(n, d)),
        nearest(n, d) <= INF_MAGNITUDE,
{
    let m = lemma_nearest_from(n, d, 0);
}

/// A smaller quotient does not round to a larger magnitude.
pub proof fn lemma_nearest_keeps_order(n1: nat, d1: nat, n2: nat, d2: nat)
    requires
        d1 > 0,
        d2 > 0,
        n1 * d2 <= n2 * d1,
    ensures
        nearest(n1, d1) <= nearest(n2, d2),
{
    let a = nearest(n1, d1);
    let b = nearest(n2, d2);
    lemma_nearest(n1, d1);
    lemma_nearest(n2, d2);
    if a > b {
        let high = grid((a - 1) as nat) + grid(a);
        let low = grid(b) + grid(b + 1);
        lemma_mid_increases(b, (a - 1) as nat);
        assert(2 * n1 >= d1 * high);
        assert(2 * n2 <= d2 * low);
        assert((2 * n1) * d2 >= (d1 * high) * d2) by (nonlinear_arith)
            requires
                2 * n1 >= d1 * high,
        ;
        assert((2 * n2) * d1 <= (d2 * low) * d1) by (nonlinear_arith)
            requires
                2 * n2 <= d2 * low,
        ;
        assert((2 * n1) * d2 <= (2 * n2) * d1) by (nonlinear_arith)
            requires
                n1 * d2 <= n2 * d1,
        ;
        assert((d1 * high) * d2 == (d1 * d2) * high) by (nonlinear_arith);
        assert((d2 * low) * d1 == (d1 * d2) * low) by (nonlinear_arith);
        assert(d1 * d2 > 0) by (nonlinear_arith)
            requires
                d1 > 0,
                d2 > 0,
        ;
        assert(high <= low) by (nonlinear_arith)
            requires
                (d1 * d2) * high <= (d1 * d2) * low,
                d1 * d2 > 0,
        ;
        assert(high == low);
        assert(2 * n1 == d1 * high) by (nonlinear_arith)
            requires
                (2 * n1) * d2 == (d1 * high) * d2,
                d2 > 0,
        ;
        assert(2 * n2 == d2 * low) by (nonlinear_arith)
            requires
                (2 * n2) * d1 == (d2 * low) * d1,
                d1 > 0,
        ;
    }
}

/// Looks for the magnitude that a square root rounds to, from `m` upwards.
proof fn lemma_nearest_root_from(n: nat, m: nat) -> (r: nat)
    requires
        m <= INF_MAGNITUDE,
        m > 0 ==> {
            let mid = grid((m - 1) as nat) + grid(m);
            4 * n > mid * mid || 4 * n == mid * mid && m % 2 == 0
        },
    ensures
        is_nearest_root(n, r),
    decreases INF_MAGNITUDE - m,
{
    if is_nearest_root(n, m) {
        m
    } else {
        lemma_nearest_root_from(n, m + 1)
    }
}

/// Every square root rounds to some magnitude.
pub proof fn lemma_nearest_root(n: nat)
    ensures
        is_nearest_root(n, nearest_root(n)),
        nearest_root(n) <= INF_MAGNITUDE,
{
    let m = lemma_nearest_root_from(n, 0);
}

/// A smaller square root does not round to a larger magnitude.
pub proof fn lemma_nearest_root_keeps_order(n1: nat, n2: nat)
    requires
        n1 <= n2,
    ensures
        nearest_root(n1) <= nearest_root(n2),
{
    let a = nearest_root(n1);
    let b = nearest_root(n2);
    lemma_nearest_root(n1);
    lemma_nearest_root(n2);
    if a > b {
        let high = grid((a - 1) as nat) + grid(a);
        let low = grid(b) + grid(b + 1);
        lemma_mid_increases(b, (a - 1) as nat);
        assert(4 * n1 >= high * high);
        assert(4 * n2 <= low * low);
        assert(low * low <= high * high) by (nonlinear_arith)
            requires
                low <= high,
        ;
        if low < high {
            assert(low * low < high * high) by (nonlinear_arith)
                requires
                    low < high,
            ;
        }
    }
}

/// A square on the grid has its root.
pub proof fn lemma_nearest_root_exact(m: nat)
    requires
        m < INF_MAGNITUDE,
    ensures
        nearest_root(grid(m) * grid(m)) == m,
{
    let g = grid(m);
    lemma_grid_increases(m, m + 1);
    let up = grid(m + 1);
    assert(4 * (g * g) < (g + up) * (g + up)) by (nonlinear_arith)
        requires
            g < up,
    ;
    if m > 0 {
        lemma_grid_increases((m - 1) as nat, m);
        let below = grid((m - 1) as nat);
        assert(4 * (g * g) > (below + g) * (below + g)) by (nonlinear_arith)
            requires
                below < g,
        ;
    }
    super::round::lemma_nearest_root_unique(g * g, m);
}

/// Whether a number is positive or zero, with no sign; infinity is.
pub open spec fn is_plain(a: F32) -> bool {
    !a.negative() && !a.is_nan()
}

/// A product of plain numbers is plain, unless it is zero times infinity.
pub proof fn lemma_product_plain(a: F32, b: F32)
    requires
        is_plain(a),
        is_plain(b),
        a.is_infinite() ==> !b.is_zero(),
        b.is_infinite() ==> !a.is_zero(),
    ensures
        is_plain(product(a, b)),
{
    reveal(product);
    lemma_pow2_pos(149);
    lemma_nearest(grid(a.magnitude()) * grid(b.magnitude()), pow2(149));
}

/// A product of plain numbers with plain numbers that are not less.
pub proof fn lemma_product_keeps_order(a: F32, b: F32, c: F32, d: F32)
    requires
        is_plain(a),
        is_plain(b),
        is_plain(c),
        is_plain(d),
        c.is_finite(),
        d.is_finite(),
        a.magnitude() <= c.magnitude(),
        b.magnitude() <= d.magnitude(),
    ensures
        is_plain(product(a, b)),
        product(a, b).magnitude() <= product(c, d).magnitude(),
{
    reveal(product);
    lemma_pow2_pos(149);
    let (ga, gb) = (grid(a.magnitude()), grid(b.magnitude()));
    let (gc, gd) = (grid(c.magnitude()), grid(d.magnitude()));
    lemma_nearest(ga * gb, pow2(149));
    lemma_nearest(gc * gd, pow2(149));
    if a.magnitude() < c.magnitude() {
        lemma_grid_increases(a.magnitude(), c.magnitude());
    }
    if b.magnitude() < d.magnitude() {
        lemma_grid_increases(b.magnitude(), d.magnitude());
    }
    let unit = pow2(149);
    assert((ga * gb) * unit <= (gc * gd) * unit) by (nonlinear_arith)
        requires
            ga <= gc,
            gb <= gd,
            unit > 0,
    ;
    lemma_nearest_keeps_order(ga * gb, unit, gc * gd, unit);
}

/// A plain number over a finite one above zero is plain.
pub proof fn lemma_quotient_plain(a: F32, b: F32)
    requires
        is_plain(a),
        is_plain(b),
        b.is_finite(),
        !b.is_zero(),
    ensures
        is_plain(quotient(a, b)),
{
    reveal(quotient);
    lemma_grid_increases(0, b.magnitude());
    lemma_nearest(grid(a.magnitude()) * pow2(149), grid(b.magnitude()));
}

/// Quotients with one divisor keep the order of what is divided.
pub proof fn lemma_quotient_keeps_order(a: F32, c: F32, b: F32)
    requires
        is_plain(a),
        is_plain(c),
        is_plain(b),
        c.is_finite(),
        b.is_finite(),
        !b.is_zero(),
        a.magnitude() <= c.magnitude(),
    ensures
        is_plain(quotient(a, b)),
        quotient(a, b).magnitude() <= quotient(c, b).magnitude(),
{
    reveal(quotient);
    lemma_grid_increases(0, b.magnitude());
    if a.magnitude() < c.magnitude() {
        lemma_grid_increases(a.magnitude(), c.magnitude());
    }
    let (ga, gc, gb) = (grid(a.magnitude()), grid(c.magnitude()), grid(b.magnitude()));
    let unit = pow2(149);
    lemma_nearest(ga * unit, gb);
    lemma_nearest(gc * unit, gb);
    assert((ga * unit) * gb <= (gc * unit) * gb) by (nonlinear_arith)
        requires
            ga <= gc,
    ;
    lemma_nearest_keeps_order(ga * unit, gb, gc * unit, gb);
}

/// A sum of plain numbers is plain and not less than either.
pub proof fn lemma_sum_plain(a: F32, b: F32)
    requires
        is_plain(a),
        is_plain(b),
    ensures
        is_plain(sum(a, b)),
        sum(a, b).magnitude() >= b.magnitude(),
{
    reveal(sum);
    if a.is_finite() && b.is_finite() {
        let exact = grid(a.magnitude()) + grid(b.magnitude());
        lemma_nearest(exact, 1);
        lemma_nearest_exact(b.magnitude(), 1);
        assert(grid(b.magnitude()) * 1 == grid(b.magnitude()));
        lemma_nearest_keeps_order(grid(b.magnitude()), 1, exact, 1);
        if exact == 0 && b.magnitude() > 0 {
            lemma_grid_increases(0, b.magnitude());
        }
    }
}

/// Sums with one plain number keep the order of the other.
pub proof fn lemma_sum_keeps_order(a: F32, c: F32, b: F32)
    requires
        is_plain(a),
        is_plain(c),
        is_plain(b),
        c.is_finite(),
        b.is_finite(),
        a.magnitude() <= c.magnitude(),
    ensures
        is_plain(sum(a, b)),
        sum(a, b).magnitude() <= sum(c, b).magnitude(),
{
    lemma_sum_plain(a, b);
    lemma_sum_plain(c, b);
    reveal(sum);
    if a.magnitude() < c.magnitude() {
        lemma_grid_increases(a.magnitude(), c.magnitude());
    }
    let low = grid(a.magnitude()) + grid(b.magnitude());
    let high = grid(c.magnitude()) + grid(b.magnitude());
    lemma_nearest_keeps_order(low, 1, high, 1);
    lemma_nearest(low, 1);
    lemma_nearest(high, 1);
}

/// Square roots keep the order.
pub proof fn lemma_root_keeps_order(a: F32, b: F32)
    requires
        is_plain(a),
        is_plain(b),
        a.magnitude() <= b.magnitude(),
    ensures
        is_plain(root(a)),
        root(a).magnitude() <= root(b).magnitude(),
{
    reveal(root);
    if a.magnitude() < b.magnitude() {
        lemma_grid_increases(a.magnitude(), b.magnitude());
    }
    let (ga, gb) = (grid(a.magnitude()), grid(b.magnitude()));
    let unit = pow2(149);
    assert(ga * unit <= gb * unit) by (nonlinear_arith)
        requires
            ga <= gb,
    ;
    lemma_nearest_root(ga * unit);
    lemma_nearest_root(gb * unit);
    lemma_nearest_root_keeps_order(ga * unit, gb * unit);
}

/// The square root of one.
pub proof fn lemma_root_of_one()
    ensures
        root(one()) == one(),
        grid(one().magnitude()) == pow2(149),
{
    reveal(root);
    lemma2_to64();
    let m = one().magnitude();
    assert(m / 0x80_0000 == 127);
    assert(m % 0x80_0000 == 0);
    lemma_pow2_adds(23, 126);
    assert(grid(m) == pow2(149));
    lemma_nearest_root_exact(m);
}

/// The floor of a plain number that is not below one.
pub proof fn lemma_floor_of_large(a: F32)
    requires
        is_plain(a),
        a.magnitude() >= one().magnitude(),
    ensures
        floor_usize(a) >= 1,
{
    reveal(floor_usize);
    lemma_root_of_one();
    lemma_pow2_pos(149);
    let m = one().magnitude();
    if a.magnitude() > m {
        lemma_grid_increases(m, a.magnitude());
    }
    vstd::arithmetic::div_mod::lemma_div_is_ordered(
        pow2(149) as int,
        grid(a.magnitude()) as int,
        pow2(149) as int,
    );
    assert(pow2(149) as int / pow2(149) as int == 1) by (nonlinear_arith)
        requires
            pow2(149) > 0,
    ;
}

/// The magnitude whose value is `s * 2^e`.
pub proof fn lemma_on_grid(s: nat, e: nat) -> (m: nat)
    requires
        s < 0x100_0000,
    ensures
        grid(m) == s * pow2(e),
    decreases e,
{
    if e == 0 || s >= 0x80_0000 {
        lemma_grid_split(s, e);
        e * 0x80_0000 + s
    } else {
        lemma_pow2_unfold(e);
        let m = lemma_on_grid(2 * s, (e - 1) as nat);
        let p = pow2((e - 1) as nat);
        assert((2 * s) * p == s * (2 * p)) by (nonlinear_arith);
        m
    }
}

/// The value of infinity's magnitude is larger than that of every whole number of 24 bits.
pub proof fn lemma_infinity_is_large(m: nat)
    requires
        grid(m) < 0x100_0000 * pow2(149),
    ensures
        m < INF_MAGNITUDE,
{
    lemma2_to64();
    let inf = INF_MAGNITUDE as nat;
    assert(inf / 0x80_0000 == 255);
    assert(inf % 0x80_0000 == 0);
    assert(grid(inf) == 0x80_0000 * pow2(254));
    lemma_pow2_strictly_increases(149, 253);
    lemma_pow2_unfold(254);
    if m > inf {
        lemma_grid_increases(inf, m);
    }
}

/// Whole numbers of up to 24 bits are held exactly.
pub proof fn lemma_of_int_exact(n: nat)
    requires
        n < 0x100_0000,
    ensures
        !of_int(n as int).negative(),
        of_int(n as int).is_finite(),
        grid(of_int(n as int).magnitude()) == n * pow2(149),
{
    reveal(of_int);
    let m = lemma_on_grid(n, 149);
    lemma_pow2_pos(149);
    assert(n * pow2(149) < 0x100_0000 * pow2(149)) by (nonlinear_arith)
        requires
            n < 0x100_0000,
            pow2(149) > 0,
    ;
    lemma_infinity_is_large(m);
    lemma_nearest_exact(m, 1);
    assert(grid(m) * 1 == grid(m));
    lemma_parts_of(false, m);
}

/// The number with a whole value of up to 24 bits, by its grid value.
pub proof fn lemma_of_int_is(n: nat, a: F32)
    requires
        n < 0x100_0000,
        is_plain(a),
        grid(a.magnitude()) == n * pow2(149),
    ensures
        a == of_int(n as int),
{
    lemma_of_int_exact(n);
    let m = of_int(n as int).magnitude();
    if a.magnitude() < m {
        lemma_grid_increases(a.magnitude(), m);
    } else if m < a.magnitude() {
        lemma_grid_increases(m, a.magnitude());
    }
    lemma_of_parts(a);
    lemma_of_parts(of_int(n as int));
}

/// Zero and one are whole numbers.
pub proof fn lemma_zero_and_one()
    ensures
        zero() == of_int(0),
        one() == of_int(1),
{
    lemma_root_of_one();
    assert(0 * pow2(149) == 0);
    assert(1 * pow2(149) == pow2(149));
    lemma_of_int_is(0, zero());
    lemma_of_int_is(1, one());
}

/// The product of whole numbers is exact where it has up to 24 bits.
pub proof fn lemma_product_of_ints(a: nat, b: nat)
    requires
        a < 0x100_0000,
        b < 0x100_0000,
        a * b < 0x100_0000,
    ensures
        product(of_int(a as int), of_int(b as int)) == of_int((a * b) as int),
{
    reveal(product);
    lemma_of_int_exact(a);
    lemma_of_int_exact(b);
    lemma_of_int_exact(a * b);
    let unit = pow2(149);
    let m = of_int((a * b) as int).magnitude();
    lemma_pow2_pos(149);
    assert((a * unit) * (b * unit) == ((a * b) * unit) * unit) by (nonlinear_arith);
    lemma_nearest_exact(m, unit);
    lemma_of_parts(of_int((a * b) as int));
}

/// A whole multiple of up to 24 bits, divided, is exact.
pub proof fn lemma_quotient_of_ints(a: nat, b: nat)
    requires
        a < 0x100_0000,
        0 < b < 0x100_0000,
        a * b < 0x100_0000,
    ensures
        quotient(of_int((a * b) as int), of_int(b as int)) == of_int(a as int),
{
    reveal(quotient);
    lemma_of_int_exact(a);
    lemma_of_int_exact(b);
    lemma_of_int_exact(a * b);
    let unit = pow2(149);
    let m = of_int(a as int).magnitude();
    lemma_pow2_pos(149);
    assert(b * unit > 0) by (nonlinear_arith)
        requires
            b > 0,
            unit > 0,
    ;
    assert(((a * b) * unit) * unit == (a * unit) * (b * unit)) by (nonlinear_arith);
    lemma_nearest_exact(m, b * unit);
    lemma_of_parts(of_int(a as int));
}

/// The sum of whole numbers is exact where it has up to 24 bits.
pub proof fn lemma_sum_of_ints(a: nat, b: nat)
    requires
        a + b < 0x100_0000,
    ensures
        sum(of_int(a as int), of_int(b as int)) == of_int((a + b) as int),
{
    reveal(sum);
    lemma_of_int_exact(a);
    lemma_of_int_exact(b);
    lemma_of_int_exact(a + b);
    let unit = pow2(149);
    let m = of_int((a + b) as int).magnitude();
    assert(a * unit + b * unit == (a + b) * unit) by (nonlinear_arith);
    lemma_nearest_exact(m, 1);
    assert(grid(m) * 1 == grid(m));
    lemma_of_parts(of_int((a + b) as int));
    if (a + b) * unit == 0 {
        lemma_pow2_pos(149);
        assert(a + b == 0) by (nonlinear_arith)
            requires
                (a + b) * unit == 0,
                unit > 0,
        ;
        lemma_zero_and_one();
    }
}

/// The square root of a whole square of up to 24 bits is exact.
pub proof fn lemma_root_of_square(a: nat)
    requires
        0 < a,
        a * a < 0x100_0000,
    ensures
        root(of_int((a * a) as int)) == of_int(a as int),
{
    reveal(root);
    assert(a <= a * a) by (nonlinear_arith)
        requires
            a > 0,
    ;
    lemma_of_int_exact(a);
    lemma_of_int_exact(a * a);
    let unit = pow2(149);
    let m = of_int(a as int).magnitude();
    lemma_pow2_pos(149);
    assert(((a * a) * unit) * unit == (a * unit) * (a * unit)) by (nonlinear_arith);
    assert((a * a) * unit > 0) by (nonlinear_arith)
        requires
            a > 0,
            unit > 0,
    ;
    lemma_nearest_root_exact(m);
    lemma_of_parts(of_int(a as int));
}

/// Whole numbers are ordered as their numbers are.
pub proof fn lemma_of_int_keeps_order(a: nat, b: nat)
    requires
        a <= b < 0x100_0000,
    ensures
        of_int(a as int).magnitude() <= of_int(b as int).magnitude(),
{
    lemma_of_int_exact(a);
    lemma_of_int_exact(b);
    let (ma, mb) = (of_int(a as int).magnitude(), of_int(b as int).magnitude());
    assert(a * pow2(149) <= b * pow2(149)) by (nonlinear_arith)
        requires
            a <= b,
    ;
    if mb < ma {
        lemma_grid_increases(mb, ma);
    }
}

/// The floor of a plain number that is at most a whole number.
pub proof fn lemma_floor_at_most(a: F32, n: nat)
    requires
        is_plain(a),
        n < 0x100_0000,
        a.magnitude() <= of_int(n as int).magnitude(),
    ensures
        floor_usize(a) <= n,
{
    reveal(floor_usize);
    lemma_of_int_exact(n);
    lemma_pow2_pos(149);
    let m = of_int(n as int).magnitude();
    if a.magnitude() < m {
        lemma_grid_increases(a.magnitude(), m);
    }
    vstd::arithmetic::div_mod::lemma_div_is_ordered(
        grid(a.magnitude()) as int,
        grid(m) as int,
        pow2(149) as int,
    );
    vstd::arithmetic::div_mod::lemma_div_multiples_vanish(n as int, pow2(149) as int);
    assert(pow2(149) * n == n * pow2(149)) by (nonlinear_arith);
}

/// A byte, made a number, gives the byte back.
pub proof fn lemma_byte_round_trip(b: u8)
    ensures
        byte_of(of_int(b as int)) == b,
{
    reveal(byte_of);
    lemma_of_int_exact(b as nat);
    lemma_pow2_pos(149);
    vstd::arithmetic::div_mod::lemma_div_multiples_vanish(b as int, pow2(149) as int);
    assert(pow2(149) * b == b * pow2(149)) by (nonlinear_arith);
}

} // verus!
