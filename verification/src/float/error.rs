//! How far rounding leads away from the exact result.

use super::order::{lemma_nearest, lemma_nearest_keeps_order};
use super::repr::{
    exponent, grid, lemma_grid_split, lemma_significand, significand, INF_MAGNITUDE,
};
use super::round::{lemma_nearest_exact, nearest};
use vstd::arithmetic::power2::{
    lemma2_to64, lemma_pow2_adds, lemma_pow2_pos, lemma_pow2_strictly_increases,
    lemma_pow2_unfold, pow2,
};
use vstd::prelude::*;

verus! {

/// Whether `a` differs from `b` by at most `k / 2^24` of it.
pub open spec fn near(a: int, b: int, k: int) -> bool {
    (0x100_0000 - k) * b <= 0x100_0000 * a <= (0x100_0000 + k) * b
}

pub proof fn lemma_near_same(a: int, k: int)
    requires
        a >= 0,
        k >= 0,
    ensures
        near(a, a, k),
{
    assert((0x100_0000 - k) * a <= 0x100_0000 * a <= (0x100_0000 + k) * a) by (nonlinear_arith)
        requires
            a >= 0,
            k >= 0,
    ;
}

pub proof fn lemma_near_trans(a: int, b: int, c: int, k: int, l: int)
    requires
        near(a, b, k),
        near(b, c, l),
        0 <= k <= 0x100_0000,
        0 <= l <= 0x100_0000,
        k * l <= 0x100_0000,
        c >= 0,
    ensures
        near(a, c, k + l + 1),
{
    let t = 0x100_0000int;
    assert(t * (t * a) <= (t + k) * (t * b)) by (nonlinear_arith)
        requires
            t * a <= (t + k) * b,
            t > 0,
    ;
    assert((t + k) * (t * b) <= (t + k) * ((t + l) * c)) by (nonlinear_arith)
        requires
            t * b <= (t + l) * c,
            t + k >= 0,
    ;
    let kl = k * l;
    assert((t + k) * ((t + l) * c) == (t * t + t * (k + l) + kl) * c) by (nonlinear_arith)
        requires
            kl == k * l,
    ;
    assert((t * t + t * (k + l) + kl) * c <= t * ((t + (k + l + 1)) * c)) by (nonlinear_arith)
        requires
            c >= 0,
            kl <= t,
    ;
    assert(t * a <= (t + (k + l + 1)) * c) by (nonlinear_arith)
        requires
            t * (t * a) <= t * ((t + (k + l + 1)) * c),
            t > 0,
    ;
    assert(t * (t * a) >= (t - k) * (t * b)) by (nonlinear_arith)
        requires
            t * a >= (t - k) * b,
            t > 0,
    ;
    assert((t - k) * (t * b) >= (t - k) * ((t - l) * c)) by (nonlinear_arith)
        requires
            t * b >= (t - l) * c,
            t - k >= 0,
    ;
    assert((t - k) * ((t - l) * c) == (t * t - t * (k + l) + kl) * c) by (nonlinear_arith)
        requires
            kl == k * l,
    ;
    assert(kl >= 0) by (nonlinear_arith)
        requires
            kl == k * l,
            k >= 0,
            l >= 0,
    ;
    assert((t * t - t * (k + l) + kl) * c >= t * ((t - (k + l + 1)) * c)) by (nonlinear_arith)
        requires
            c >= 0,
            kl >= 0,
            t >= 0,
    ;
    assert(t * a >= (t - (k + l + 1)) * c) by (nonlinear_arith)
        requires
            t * (t * a) >= t * ((t - (k + l + 1)) * c),
            t > 0,
    ;
}

pub proof fn lemma_near_add(a: int, b: int, c: int, d: int, k: int)
    requires
        near(a, b, k),
        near(c, d, k),
    ensures
        near(a + c, b + d, k),
{
    assert((0x100_0000 - k) * (b + d) == (0x100_0000 - k) * b + (0x100_0000 - k) * d)
        by (nonlinear_arith);
    assert((0x100_0000 + k) * (b + d) == (0x100_0000 + k) * b + (0x100_0000 + k) * d)
        by (nonlinear_arith);
}

pub proof fn lemma_near_scale(a: int, b: int, c: int, k: int)
    requires
        near(a, b, k),
        c >= 0,
    ensures
        near(a * c, b * c, k),
{
    assert((0x100_0000 - k) * (b * c) <= 0x100_0000 * (a * c)) by (nonlinear_arith)
        requires
            (0x100_0000 - k) * b <= 0x100_0000 * a,
            c >= 0,
    ;
    assert(0x100_0000 * (a * c) <= (0x100_0000 + k) * (b * c)) by (nonlinear_arith)
        requires
            0x100_0000 * a <= (0x100_0000 + k) * b,
            c >= 0,
    ;
}

pub proof fn lemma_near_cancel(a: int, b: int, c: int, k: int)
    requires
        near(a * c, b * c, k),
        c > 0,
    ensures
        near(a, b, k),
{
    assert((0x100_0000 - k) * b <= 0x100_0000 * a) by (nonlinear_arith)
        requires
            (0x100_0000 - k) * (b * c) <= 0x100_0000 * (a * c),
            c > 0,
    ;
    assert(0x100_0000 * a <= (0x100_0000 + k) * b) by (nonlinear_arith)
        requires
            0x100_0000 * (a * c) <= (0x100_0000 + k) * (b * c),
            c > 0,
    ;
}

/// A quotient below the largest numbers does not round to infinity.
proof fn lemma_rounds_to_finite(n: nat, d: nat)
    requires
        d > 0,
        n < d * pow2(276),
    ensures
        nearest(n, d) < INF_MAGNITUDE,
{
    lemma_nearest(n, d);
    let inf = INF_MAGNITUDE as nat;
    lemma2_to64();
    assert(inf / 0x80_0000 == 255);
    assert(inf % 0x80_0000 == 0);
    lemma_pow2_adds(23, 254);
    lemma_pow2_unfold(277);
    assert(grid(inf) == 2 * pow2(276));
    let below = grid((inf - 1) as nat);
    if nearest(n, d) == inf {
        assert(d * (below + 2 * pow2(276)) >= 2 * (d * pow2(276))) by (nonlinear_arith);
    }
}

/// The distance between a quotient and what it rounds to is at most half a step.
proof fn lemma_half_step(n: nat, d: nat)
    requires
        d > 0,
        nearest(n, d) < INF_MAGNITUDE,
    ensures
        ({
            let m = nearest(n, d);
            let p = pow2(exponent(m));
            &&& 2 * n <= 2 * (grid(m) * d) + p * d
            &&& 2 * (grid(m) * d) <= 2 * n + p * d
            &&& significand(m) == 0x80_0000 && exponent(m) > 0 && n < grid(m) * d ==> 4 * (grid(m)
                * d) <= 4 * n + p * d
        }),
{
    lemma_nearest(n, d);
    let m = nearest(n, d);
    let g = grid(m);
    let p = pow2(exponent(m));
    lemma_significand(m);
    let s = significand(m);
    assert((s + 1) * p == s * p + p) by (nonlinear_arith);
    assert(d * (g + (g + p)) == 2 * (g * d) + p * d) by (nonlinear_arith);
    if m > 0 {
        let k = (m - 1) as nat;
        lemma_significand(k);
        let q = pow2(exponent(k));
        let t = significand(k);
        assert((t + 1) * q == t * q + q) by (nonlinear_arith);
        assert(g == grid(k) + q);
        assert(d * (grid(k) + g) == 2 * (g * d) - q * d) by (nonlinear_arith)
            requires
                g == grid(k) + q,
        ;
        assert(exponent(k) <= exponent(m));
        if exponent(k) < exponent(m) {
            lemma_pow2_strictly_increases(exponent(k), exponent(m));
        }
        assert(q * d <= p * d) by (nonlinear_arith)
            requires
                q <= p,
        ;
        if s == 0x80_0000 && exponent(m) > 0 {
            assert(exponent(k) == exponent(m) - 1);
            lemma_pow2_unfold(exponent(m));
            assert(p * d == 2 * (q * d)) by (nonlinear_arith)
                requires
                    p == 2 * q,
            ;
        }
    } else {
        lemma_pow2_pos(exponent(m));
        assert(g * d == 0) by (nonlinear_arith)
            requires
                g == 0,
        ;
    }
}

/// A quotient that is not among the smallest numbers, rounded.
pub proof fn lemma_rounding_error(n: nat, d: nat)
    requires
        d > 0,
        d * 0x80_0000 <= n < d * pow2(276),
    ensures
        nearest(n, d) < INF_MAGNITUDE,
        near((grid(nearest(n, d)) * d) as int, n as int, 1),
{
    lemma_rounds_to_finite(n, d);
    lemma_half_step(n, d);
    let m = nearest(n, d);
    let g = grid(m);
    let e = exponent(m);
    let p = pow2(e);
    let s = significand(m);
    lemma_significand(m);
    lemma_pow2_pos(e);
    lemma2_to64();
    let gd = g * d;
    let pd = p * d;
    assert(gd == s * pd) by (nonlinear_arith)
        requires
            gd == g * d,
            g == s * p,
            pd == p * d,
    ;
    if e == 0 {
        assert(pd == d) by (nonlinear_arith)
            requires
                pd == p * d,
                p == 1,
        ;
    } else if n >= gd || s == 0x80_0000 {
        assert(s * pd >= 0x80_0000 * pd) by (nonlinear_arith)
            requires
                s >= 0x80_0000,
        ;
    } else {
        assert(s * pd >= 0x80_0001 * pd) by (nonlinear_arith)
            requires
                s >= 0x80_0001,
        ;
    }
}

/// A whole number of the smallest steps, rounded.
pub proof fn lemma_whole_rounding_error(n: nat)
    requires
        n < pow2(276),
    ensures
        nearest(n, 1) < INF_MAGNITUDE,
        near(grid(nearest(n, 1)) as int, n as int, 1),
{
    if n < 0x80_0000 {
        assert(grid(n) == n);
        lemma_nearest_exact(n, 1);
        assert(grid(n) * 1 == n);
        lemma_near_same(n as int, 1);
    } else {
        lemma_rounding_error(n, 1);
        assert(grid(nearest(n, 1)) * 1 == grid(nearest(n, 1)));
    }
}

/// Any quotient, rounded: near or at most half of the smallest step away.
pub proof fn lemma_small_rounding_error(n: nat, d: nat)
    requires
        d > 0,
        n < d * pow2(276),
    ensures
        nearest(n, d) < INF_MAGNITUDE,
        0x100_0000 * (grid(nearest(n, d)) * d) <= 0x100_0000 * n + n + 0x80_0000 * d,
        0x100_0000 * n <= 0x100_0000 * (grid(nearest(n, d)) * d) + n + 0x80_0000 * d,
{
    let m = nearest(n, d);
    if n >= d * 0x80_0000 {
        lemma_rounding_error(n, d);
    } else {
        lemma_rounds_to_finite(n, d);
        lemma_half_step(n, d);
        lemma2_to64();
        let unit = pow2(0);
        lemma_grid_split(0x80_0000, 0);
        assert(0x80_0000 * unit == 0x80_0000);
        lemma_nearest_exact(0x80_0000, d);
        assert(n * d <= (0x80_0000 * d) * d) by (nonlinear_arith)
            requires
                n <= d * 0x80_0000,
        ;
        lemma_nearest_keeps_order(n, d, 0x80_0000 * d, d);
        assert(exponent(m) == 0);
        assert(unit * d == d) by (nonlinear_arith)
            requires
                unit == 1,
        ;
    }
}

} // verus!
