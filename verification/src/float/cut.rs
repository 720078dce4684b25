//! Sums and products that are cut off: rounded towards zero, so that none is above its exact
//! value.

use super::arith::unpack;
use super::error::{lemma_near_same, near};
use super::numbers::{one, zero};
use super::order::{is_plain, lemma_nearest, lemma_root_of_one};
use super::repr::{
    exponent, grid, lemma_grid_increases, lemma_of_parts, lemma_parts_of, lemma_significand,
    significand, F32, INF_MAGNITUDE, NAN_BITS,
};
use super::round::{
    bit_length, lemma_one_shifted, lemma_scaled_neighbours, nearest, split_significand,
};
use vstd::arithmetic::power2::{
    lemma2_to64, lemma2_to64_rest, lemma_pow2_adds, lemma_pow2_pos, lemma_pow2_strictly_increases,
    lemma_pow2_unfold, pow2,
};
use vstd::prelude::*;

verus! {

/// Whether `m` is the magnitude that `n / d` is cut off to, where `n / d` is in units of the
/// smallest positive number: the greatest whose value is not above it. Infinity counts as two to
/// the power of 128.
pub open spec fn is_floored(n: nat, d: nat, m: nat) -> bool {
    &&& m <= INF_MAGNITUDE
    &&& d * grid(m) <= n
    &&& m < INF_MAGNITUDE ==> n < d * grid(m + 1)
}

/// The magnitude that `n / d` is cut off to.
pub open spec fn floored(n: nat, d: nat) -> nat {
    choose|m: nat| is_floored(n, d, m)
}

/// `a + b`, cut off.
#[verifier::opaque]
pub open spec fn sum_cut(a: F32, b: F32) -> F32 {
    if a.is_nan() || b.is_nan() {
        F32::nan()
    } else if a.is_infinite() && b.is_infinite() {
        if a.negative() == b.negative() {
            a
        } else {
            F32::nan()
        }
    } else if a.is_infinite() {
        a
    } else if b.is_infinite() {
        b
    } else {
        let exact = a.scaled() + b.scaled();
        if exact == 0 {
            F32::of(a.negative() && b.negative(), 0)
        } else if exact < 0 {
            F32::of(true, floored((-exact) as nat, 1))
        } else {
            F32::of(false, floored(exact as nat, 1))
        }
    }
}

/// `a * b`, cut off.
#[verifier::opaque]
pub open spec fn product_cut(a: F32, b: F32) -> F32 {
    let negative = a.negative() != b.negative();
    if a.is_nan() || b.is_nan() {
        F32::nan()
    } else if a.is_infinite() || b.is_infinite() {
        if a.is_zero() || b.is_zero() {
            F32::nan()
        } else {
            F32::of(negative, INF_MAGNITUDE as nat)
        }
    } else {
        F32::of(negative, floored(grid(a.magnitude()) * grid(b.magnitude()), pow2(149)))
    }
}

/// Quotients that are cut off keep the order.
pub proof fn lemma_floored_keeps_order(n1: nat, d1: nat, n2: nat, d2: nat)
    requires
        d1 > 0,
        d2 > 0,
        n1 * d2 <= n2 * d1,
    ensures
        floored(n1, d1) <= floored(n2, d2),
{
    lemma_floored(n1, d1);
    lemma_floored(n2, d2);
    let a = floored(n1, d1);
    let b = floored(n2, d2);
    if a > b {
        if a > b + 1 {
            lemma_grid_increases(b + 1, a);
        }
        let g = grid(a);
        let h = grid(b + 1);
        assert(n2 * d1 < (d2 * g) * d1) by (nonlinear_arith)
            requires
                n2 < d2 * h,
                h <= g,
                d1 > 0,
                d2 > 0,
        {
            assert(d2 * h <= d2 * g);
        }
        assert((d1 * g) * d2 <= n1 * d2) by (nonlinear_arith)
            requires
                d1 * g <= n1,
        ;
        assert((d2 * g) * d1 == (d1 * g) * d2) by (nonlinear_arith);
    }
}

/// A quotient is cut off to one magnitude only.
pub proof fn lemma_floored_unique(n: nat, d: nat, m: nat)
    requires
        d > 0,
        is_floored(n, d, m),
    ensures
        floored(n, d) == m,
{
    let k = floored(n, d);
    assert(is_floored(n, d, k));
    lemma_floored_order(n, d, k, m);
    lemma_floored_order(n, d, m, k);
}

proof fn lemma_floored_order(n: nat, d: nat, a: nat, b: nat)
    requires
        d > 0,
        is_floored(n, d, a),
        is_floored(n, d, b),
    ensures
        a >= b,
{
    if a < b {
        if a + 1 < b {
            lemma_grid_increases(a + 1, b);
        }
        let g = grid(a + 1);
        let h = grid(b);
        assert(d * g <= d * h) by (nonlinear_arith)
            requires
                g <= h,
        ;
    }
}

/// Every quotient can be cut off.
pub proof fn lemma_floored(n: nat, d: nat)
    requires
        d > 0,
    ensures
        is_floored(n, d, floored(n, d)),
        floored(n, d) <= INF_MAGNITUDE,
{
    lemma_nearest(n, d);
    let m = nearest(n, d);
    let g = grid(m);
    if d * g <= n {
        if m < INF_MAGNITUDE {
            lemma_grid_increases(m, m + 1);
            let up = grid(m + 1);
            assert(n < d * up) by (nonlinear_arith)
                requires
                    2 * n <= d * (g + up),
                    g < up,
                    d > 0,
            ;
        }
        assert(is_floored(n, d, m));
    } else {
        assert(grid(0) == 0);
        assert(d * 0 == 0);
        assert(m > 0);
        let k = (m - 1) as nat;
        lemma_grid_increases(k, m);
        let low = grid(k);
        assert(d * low <= n) by (nonlinear_arith)
            requires
                2 * n >= d * (low + g),
                low < g,
                d > 0,
        ;
        assert(is_floored(n, d, k));
    }
}

/// A value on the grid is cut off to itself.
pub proof fn lemma_floored_exact(m: nat, d: nat)
    requires
        m < INF_MAGNITUDE,
        d > 0,
    ensures
        floored(grid(m) * d, d) == m,
{
    lemma_grid_increases(m, m + 1);
    let g = grid(m);
    let up = grid(m + 1);
    assert(d * g <= g * d && g * d < d * up) by (nonlinear_arith)
        requires
            g < up,
            d > 0,
    ;
    lemma_floored_unique(g * d, d, m);
}

/// What is cut off is less than two parts in `2^24`, but for the numbers of least size.
pub proof fn lemma_floored_error(n: nat, d: nat)
    requires
        d > 0,
        n < d * pow2(276),
    ensures
        floored(n, d) < INF_MAGNITUDE,
        grid(floored(n, d)) * d <= n,
        0x100_0000 * n <= 0x100_0000 * (grid(floored(n, d)) * d) + 2 * n + 0x100_0000 * d,
        d == 1 ==> 0x100_0000 * n <= 0x100_0000 * grid(floored(n, d)) + 2 * n,
{
    lemma_floored(n, d);
    let m = floored(n, d);
    let g = grid(m);
    if m == INF_MAGNITUDE {
        lemma_significand(m);
        lemma_pow2_adds(23, 254);
        lemma2_to64();
        lemma_pow2_strictly_increases(276, 277);
        assert(exponent(m) == 254 && significand(m) == 0x80_0000);
        assert(d * pow2(276) <= d * g) by (nonlinear_arith)
            requires
                pow2(276) <= g,
        ;
    }
    lemma_significand(m);
    let e = exponent(m);
    let p = pow2(e);
    let s = significand(m);
    lemma_pow2_pos(e);
    lemma2_to64();
    assert((s + 1) * p == s * p + p) by (nonlinear_arith);
    let dg = d * g;
    let dp = d * p;
    assert(1 * g == g);
    assert(g * d == dg && d * (g + p) == dg + dp) by (nonlinear_arith)
        requires
            dg == d * g,
            dp == d * p,
    ;
    if e > 0 {
        assert(0x80_0000 * dp <= dg) by (nonlinear_arith)
            requires
                dg == d * g,
                dp == d * p,
                g == s * p,
                s >= 0x80_0000,
                p > 0,
        {
            assert(g >= 0x80_0000 * p);
            assert(d * g >= d * (0x80_0000 * p));
        }
    } else {
        assert(p == 1);
        assert(dp == d) by (nonlinear_arith)
            requires
                dp == d * p,
                p == 1,
        ;
    }
}

/// The magnitude that the value `q * 2^k` is cut off to, where the value is in units of two to
/// the power of minus 298.
fn floor_magnitude(q: u128, k: u32) -> (m: u32)
    requires
        q < pow2(127),
        k <= 1000,
    ensures
        m <= INF_MAGNITUDE,
        pow2(149) * grid(m as nat) <= q * pow2(k as nat),
        m < INF_MAGNITUDE ==> q * pow2(k as nat) < pow2(149) * grid((m + 1) as nat),
{
    proof {
        lemma_pow2_unfold(149);
        lemma_pow2_pos(148);
    }
    if q == 0 {
        proof {
            assert(grid(0) == 0 && grid(1) == 1);
            assert(0 * pow2(k as nat) == 0 && pow2(149) * 0 == 0 && pow2(149) * 1 == pow2(149));
        }
        return 0;
    }
    let n = bit_length(q);
    proof {
        if n == 128 {
            assert(pow2(127) <= q);
        }
    }
    let u: u32 = if n + k > 173 {
        n + k - 24
    } else {
        149
    };
    let (s, up) = split_significand(q, k, false, n, u);
    let ghost e = (u - 149) as nat;
    assert(e + 148 == u - 1);
    let m: u64 = (u - 149) as u64 * 0x80_0000 + s;
    proof {
        lemma_scaled_neighbours(s as nat, e);
        let half = pow2(148);
        let unit = pow2((u - 1) as nat);
        lemma_pow2_pos((u - 1) as nat);
        let (g, h) = (grid(m as nat), grid((m + 1) as nat));
        assert(pow2(149) * g == 2 * (g * half) && pow2(149) * h == 2 * (h * half))
            by (nonlinear_arith)
            requires
                pow2(149) == 2 * half,
        ;
        assert((2 * s + 2) * unit == (2 * s + 1) * unit + unit) by (nonlinear_arith);
    }
    if m >= INF_MAGNITUDE as u64 {
        proof {
            let inf = INF_MAGNITUDE as nat;
            if inf < m {
                lemma_grid_increases(inf, m as nat);
            }
            let (g, h) = (grid(inf), grid(m as nat));
            assert(pow2(149) * g <= pow2(149) * h) by (nonlinear_arith)
                requires
                    g <= h,
            ;
        }
        INF_MAGNITUDE
    } else {
        m as u32
    }
}

/// The magnitude that the value `q * 2^k` is cut off to, where the value is in units of the
/// smallest positive number.
fn floor_whole(q: u128, k: u32) -> (m: u32)
    requires
        q < pow2(127),
        k <= 400,
    ensures
        m as nat == floored(q as nat * pow2(k as nat), 1),
        m <= INF_MAGNITUDE,
{
    let m = floor_magnitude(q, k + 149);
    proof {
        lemma_pow2_adds(k as nat, 149);
        lemma_pow2_pos(149);
        let pk = pow2(k as nat);
        let unit = pow2(149);
        let n = q as nat * pk;
        assert(q * (pk * unit) == n * unit) by (nonlinear_arith)
            requires
                n == q * pk,
        ;
        let (g, h) = (grid(m as nat), grid((m + 1) as nat));
        assert(1 * g <= n) by (nonlinear_arith)
            requires
                unit * g <= n * unit,
                unit > 0,
        ;
        if m < INF_MAGNITUDE {
            assert(n < 1 * h) by (nonlinear_arith)
                requires
                    n * unit < unit * h,
                    unit > 0,
            ;
        }
        lemma_floored_unique(n, 1, m as nat);
    }
    m
}

/// Adding a number that is far below the last bit of another changes nothing.
proof fn lemma_sum_absorbs(m: nat, small: nat)
    requires
        m < INF_MAGNITUDE,
        small < pow2(exponent(m)),
    ensures
        floored(grid(m) + small, 1) == m,
{
    lemma_significand(m);
    let p = pow2(exponent(m));
    let s = significand(m);
    assert((s + 1) * p == s * p + p) by (nonlinear_arith);
    lemma_floored_unique(grid(m) + small, 1, m);
}

/// Taking away a number that is far below the last bit of another leads to the next smaller one.
proof fn lemma_difference_steps(m: nat, small: nat)
    requires
        m < INF_MAGNITUDE,
        exponent(m) >= 1,
        0 < small,
        2 * small <= pow2(exponent(m)),
    ensures
        floored((grid(m) - small) as nat, 1) == m - 1,
        grid(m) > small,
{
    lemma_significand(m);
    lemma_significand((m - 1) as nat);
    let e = exponent(m);
    let p = pow2(e);
    let s = significand(m);
    lemma_pow2_unfold(e);
    let f = exponent((m - 1) as nat);
    let pf = pow2(f);
    let t = significand((m - 1) as nat);
    assert(f >= e - 1);
    if f > e - 1 {
        lemma_pow2_strictly_increases((e - 1) as nat, f);
    }
    assert((t + 1) * pf == t * pf + pf) by (nonlinear_arith);
    assert(grid(m) == grid((m - 1) as nat) + pf);
    assert(s * p >= p) by (nonlinear_arith)
        requires
            s >= 1,
    ;
    lemma_floored_unique((grid(m) - small) as nat, 1, (m - 1) as nat);
}

impl F32 {
    /// `self * other`, cut off.
    pub fn times_cut(self, other: F32) -> (r: F32)
        ensures
            r == product_cut(self, other),
    {
        proof {
            reveal(product_cut);
        }
        let negative = self.is_negative() != other.is_negative();
        let ma = self.magnitude_bits();
        let mb = other.magnitude_bits();
        if ma > INF_MAGNITUDE || mb > INF_MAGNITUDE {
            return F32 { bits: NAN_BITS };
        }
        if ma == INF_MAGNITUDE || mb == INF_MAGNITUDE {
            if ma == 0 || mb == 0 {
                return F32 { bits: NAN_BITS };
            }
            return F32::pack(negative, INF_MAGNITUDE);
        }
        let (sa, ka) = unpack(ma);
        let (sb, kb) = unpack(mb);
        assert(sa * sb < 0x1_0000_0000_0000) by (nonlinear_arith)
            requires
                sa < 0x100_0000,
                sb < 0x100_0000,
        ;
        let q: u64 = sa as u64 * sb as u64;
        let ghost n = grid(ma as nat) * grid(mb as nat);
        proof {
            lemma2_to64();
            lemma2_to64_rest();
            lemma_pow2_strictly_increases(64, 127);
            lemma_pow2_adds(ka as nat, kb as nat);
            lemma_pow2_pos(149);
            let pa = pow2(ka as nat);
            let pb = pow2(kb as nat);
            assert((sa * pa) * (sb * pb) == (sa * sb) * (pa * pb)) by (nonlinear_arith);
        }
        let m = floor_magnitude(q as u128, ka + kb);
        proof {
            lemma_floored_unique(n, pow2(149), m as nat);
        }
        F32::pack(negative, m)
    }

    /// `self + other`, cut off.
    pub fn plus_cut(self, other: F32) -> (r: F32)
        ensures
            r == sum_cut(self, other),
    {
        proof {
            reveal(sum_cut);
        }
        let ma = self.magnitude_bits();
        let mb = other.magnitude_bits();
        if ma > INF_MAGNITUDE || mb > INF_MAGNITUDE {
            return F32 { bits: NAN_BITS };
        }
        if ma == INF_MAGNITUDE && mb == INF_MAGNITUDE {
            if self.is_negative() == other.is_negative() {
                return self;
            }
            return F32 { bits: NAN_BITS };
        }
        if ma == INF_MAGNITUDE {
            return self;
        }
        if mb == INF_MAGNITUDE {
            return other;
        }
        if ma >= mb {
            F32::sum_cut_ordered(self, other)
        } else {
            F32::sum_cut_ordered(other, self)
        }
    }

    /// The sum of two finite numbers, the first of which has the larger magnitude, cut off.
    fn sum_cut_ordered(a: F32, b: F32) -> (r: F32)
        requires
            a.is_finite(),
            b.is_finite(),
            a.magnitude() >= b.magnitude(),
        ensures
            r == sum_cut(a, b),
    {
        proof {
            reveal(sum_cut);
        }
        let na = a.is_negative();
        let nb = b.is_negative();
        let ma = a.magnitude_bits();
        let mb = b.magnitude_bits();
        let (sa, ka) = unpack(ma);
        let (sb, kb) = unpack(mb);
        let ghost ga = grid(ma as nat);
        let ghost gb = grid(mb as nat);
        proof {
            if mb < ma {
                lemma_grid_increases(mb as nat, ma as nat);
            }
            lemma2_to64();
            lemma2_to64_rest();
        }
        let diff: u32 = ka - kb;
        if diff > 100 {
            proof {
                lemma_pow2_adds(24, kb as nat);
                let pb = pow2(kb as nat);
                lemma_pow2_pos(kb as nat);
                assert(sb * pb < 0x100_0000 * pb) by (nonlinear_arith)
                    requires
                        sb < 0x100_0000,
                        pb > 0,
                ;
                lemma_pow2_unfold((25 + kb) as nat);
                lemma_pow2_strictly_increases((25 + kb) as nat, ka as nat);
                let pa = pow2(ka as nat);
                lemma_pow2_pos(ka as nat);
                assert(sa * pa >= pa) by (nonlinear_arith)
                    requires
                        sa >= 1,
                ;
                lemma_sum_absorbs(ma as nat, gb);
                lemma_of_parts(a);
                if mb > 0 {
                    lemma_grid_increases(0, mb as nat);
                    assert(grid(0) == 0);
                    lemma_difference_steps(ma as nat, gb);
                }
            }
            if na == nb || mb == 0 {
                proof {
                    if mb == 0 {
                        assert(gb == 0);
                    }
                }
                return a;
            }
            return F32::pack(na, ma - 1);
        }
        proof {
            lemma_one_shifted(diff);
            lemma_pow2_pos(diff as nat);
            lemma_pow2_adds(24, diff as nat);
            if diff < 100 {
                lemma_pow2_strictly_increases(diff as nat, 100);
            }
            lemma_pow2_adds(24, 100);
            lemma_pow2_adds(diff as nat, kb as nat);
            lemma_pow2_strictly_increases(124, 126);
            lemma_pow2_unfold(127);
            let pd = pow2(diff as nat);
            let pb = pow2(kb as nat);
            let top = pow2(100);
            assert(sa * pd <= 0x100_0000 * top) by (nonlinear_arith)
                requires
                    sa < 0x100_0000,
                    pd <= top,
            ;
            lemma_pow2_strictly_increases(24, 126);
            assert(pow2(126) <= 0x4000_0000_0000_0000_0000_0000_0000_0000) by {
                lemma_pow2_adds(63, 63);
            }
            assert((sa * pd) * pb == sa * (pd * pb)) by (nonlinear_arith);
            assert((sa * pd + sb) * pb == (sa * pd) * pb + sb * pb) by (nonlinear_arith);
            assert((sa * pd - sb) * pb == (sa * pd) * pb - sb * pb) by (nonlinear_arith);
            lemma_pow2_pos(kb as nat);
            assert(sa * pd >= sb) by (nonlinear_arith)
                requires
                    (sa * pd) * pb >= sb * pb,
                    pb > 0,
            ;
        }
        let wide: u128 = sa as u128 * (1u128 << diff);
        let q: u128 = if na == nb {
            wide + sb as u128
        } else {
            wide - sb as u128
        };
        let ghost exact: int = if na == nb {
            ga + gb as int
        } else {
            ga - gb
        };
        assert(q * pow2(kb as nat) == exact);
        if q == 0 {
            assert(0 * pow2(kb as nat) == 0);
            return F32::pack(na && nb, 0);
        }
        assert(exact > 0) by (nonlinear_arith)
            requires
                q * pow2(kb as nat) == exact,
                q > 0,
                pow2(kb as nat) > 0,
        ;
        let m = floor_whole(q, kb);
        F32::pack(na, m)
    }
}

/// Products that are cut off keep the order of both factors.
pub proof fn lemma_product_cut_keeps_order(a: F32, b: F32, c: F32, d: F32)
    requires
        is_plain(a),
        is_plain(b),
        is_plain(c),
        is_plain(d),
        c.is_finite(),
        d.is_finite(),
        a.magnitude() <= c.magnitude(),
        b.magnitude() <= d.magnitude(),
    ensures
        is_plain(product_cut(a, b)),
        is_plain(product_cut(c, d)),
        product_cut(a, b).magnitude() <= product_cut(c, d).magnitude(),
{
    reveal(product_cut);
    lemma_pow2_pos(149);
    let (ga, gb) = (grid(a.magnitude()), grid(b.magnitude()));
    let (gc, gd) = (grid(c.magnitude()), grid(d.magnitude()));
    lemma_floored(ga * gb, pow2(149));
    lemma_floored(gc * gd, pow2(149));
    if a.magnitude() < c.magnitude() {
        lemma_grid_increases(a.magnitude(), c.magnitude());
    }
    if b.magnitude() < d.magnitude() {
        lemma_grid_increases(b.magnitude(), d.magnitude());
    }
    let unit = pow2(149);
    assert((ga * gb) * unit <= (gc * gd) * unit) by (nonlinear_arith)
        requires
            ga <= gc,
            gb <= gd,
            unit > 0,
    ;
    lemma_floored_keeps_order(ga * gb, unit, gc * gd, unit);
}

/// Sums that are cut off keep the order of both numbers.
pub proof fn lemma_sum_cut_keeps_order(a: F32, b: F32, c: F32, d: F32)
    requires
        is_plain(a),
        is_plain(b),
        is_plain(c),
        is_plain(d),
        a.magnitude() <= c.magnitude(),
        b.magnitude() <= d.magnitude(),
    ensures
        is_plain(sum_cut(a, b)),
        is_plain(sum_cut(c, d)),
        sum_cut(a, b).magnitude() <= sum_cut(c, d).magnitude(),
{
    reveal(sum_cut);
    let low = grid(a.magnitude()) + grid(b.magnitude());
    let high = grid(c.magnitude()) + grid(d.magnitude());
    lemma_floored(low, 1);
    lemma_floored(high, 1);
    if a.magnitude() < c.magnitude() {
        lemma_grid_increases(a.magnitude(), c.magnitude());
    }
    if b.magnitude() < d.magnitude() {
        lemma_grid_increases(b.magnitude(), d.magnitude());
    }
    lemma_floored_keeps_order(low, 1, high, 1);
}

/// A sum of plain numbers that is cut off, with its error.
pub proof fn lemma_sum_cut_error(a: F32, b: F32)
    requires
        is_plain(a),
        a.is_finite(),
        is_plain(b),
        b.is_finite(),
        grid(a.magnitude()) + grid(b.magnitude()) < pow2(276),
    ensures
        is_plain(sum_cut(a, b)),
        sum_cut(a, b).is_finite(),
        near(
            grid(sum_cut(a, b).magnitude()) as int,
            (grid(a.magnitude()) + grid(b.magnitude())) as int,
            2,
        ),
{
    reveal(sum_cut);
    let exact = grid(a.magnitude()) + grid(b.magnitude());
    assert(1 * pow2(276) == pow2(276));
    lemma_floored_error(exact, 1);
    let m = floored(exact, 1);
    lemma_parts_of(false, m);
    let g = grid(m);
    assert(g * 1 == g);
    if exact == 0 {
        assert(grid(0) == 0);
    }
    assert((0x100_0000 - 2) * exact <= 0x100_0000 * g && 0x100_0000 * g <= (0x100_0000 + 2) * exact)
        by (nonlinear_arith)
        requires
            g <= exact,
            0x100_0000 * exact <= 0x100_0000 * g + 2 * exact,
    ;
    if exact == 0 {
        lemma_near_same(0, 2);
    }
}

/// Adding to zero and multiplying by one change nothing.
pub proof fn lemma_cut_keeps(a: F32)
    requires
        is_plain(a),
        a.is_finite(),
    ensures
        sum_cut(zero(), a) == a,
        product_cut(a, one()) == a,
{
    reveal(sum_cut);
    reveal(product_cut);
    let g = grid(a.magnitude());
    assert(grid(0) == 0);
    lemma_floored_exact(a.magnitude(), 1);
    assert(g * 1 == g);
    if a.magnitude() > 0 {
        lemma_grid_increases(0, a.magnitude());
    }
    lemma_root_of_one();
    lemma_pow2_pos(149);
    lemma_floored_exact(a.magnitude(), pow2(149));
}

} // verus!
