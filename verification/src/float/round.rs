//! Rounding to the nearest number, ties to even.

use super::repr::{grid, lemma_grid_increases, lemma_grid_split, INF_MAGNITUDE};
use vstd::arithmetic::power2::{
    lemma2_to64, lemma2_to64_rest, lemma_pow2_adds, lemma_pow2_pos, lemma_pow2_strictly_increases,
    lemma_pow2_unfold, pow2,
};
use vstd::bits::{lemma_u128_shr_is_div, lemma_u64_shl_is_mul};
use vstd::prelude::*;

verus! {

/// Whether `m` is the magnitude that `n / d` rounds to, where `n / d` is in units of
/// the smallest positive number.
///
/// The quotient lies between the midpoints to the neighbours of `m`, and on a
/// midpoint only if `m` is even. Infinity has no upper neighbour.
pub open spec fn is_nearest(n: nat, d: nat, m: nat) -> bool {
    &&& m <= INF_MAGNITUDE
    &&& m < INF_MAGNITUDE ==> {
        ||| 2 * n < d * (grid(m) + grid(m + 1))
        ||| 2 * n == d * (grid(m) + grid(m + 1)) && m % 2 == 0
    }
    &&& m > 0 ==> {
        ||| 2 * n > d * (grid((m - 1) as nat) + grid(m))
        ||| 2 * n == d * (grid((m - 1) as nat) + grid(m)) && m % 2 == 0
    }
}

/// The magnitude that `n / d` rounds to.
pub open spec fn nearest(n: nat, d: nat) -> nat {
    choose|m: nat| is_nearest(n, d, m)
}

/// Whether `m` is the magnitude that the square root of `n` rounds to, in the same
/// way and in the same units.
pub open spec fn is_nearest_root(n: nat, m: nat) -> bool {
    &&& m <= INF_MAGNITUDE
    &&& m < INF_MAGNITUDE ==> {
        let mid = grid(m) + grid(m + 1);
        4 * n < mid * mid || 4 * n == mid * mid && m % 2 == 0
    }
    &&& m > 0 ==> {
        let mid = grid((m - 1) as nat) + grid(m);
        4 * n > mid * mid || 4 * n == mid * mid && m % 2 == 0
    }
}

/// The magnitude that the square root of `n` rounds to.
pub open spec fn nearest_root(n: nat) -> nat {
    choose|m: nat| is_nearest_root(n, m)
}

/// The sums of neighbouring values grow with the magnitude.
pub proof fn lemma_mid_increases(a: nat, b: nat)
    requires
        a <= b,
    ensures
        grid(a) + grid(a + 1) <= grid(b) + grid(b + 1),
        a < b ==> grid(a) + grid(a + 1) < grid(b) + grid(b + 1),
{
    if a < b {
        lemma_grid_increases(a, b);
        lemma_grid_increases(a + 1, b + 1);
    }
}

/// A quotient rounds to one magnitude only.
pub proof fn lemma_nearest_unique(n: nat, d: nat, m: nat)
    requires
        d > 0,
        is_nearest(n, d, m),
    ensures
        nearest(n, d) == m,
{
    let k = nearest(n, d);
    assert(is_nearest(n, d, k));
    lemma_nearest_order(n, d, k, m);
    lemma_nearest_order(n, d, m, k);
}

proof fn lemma_nearest_order(n: nat, d: nat, a: nat, b: nat)
    requires
        d > 0,
        is_nearest(n, d, a),
        is_nearest(n, d, b),
    ensures
        a >= b,
{
    if a < b {
        let low = grid(a) + grid(a + 1);
        let high = grid((b - 1) as nat) + grid(b);
        lemma_mid_increases(a, (b - 1) as nat);
        assert(d * low <= d * high) by (nonlinear_arith)
            requires
                low <= high,
                d > 0,
        ;
        if low < high {
            assert(d * low < d * high) by (nonlinear_arith)
                requires
                    low < high,
                    d > 0,
            ;
        }
    }
}

/// A square root rounds to one magnitude only.
pub proof fn lemma_nearest_root_unique(n: nat, m: nat)
    requires
        is_nearest_root(n, m),
    ensures
        nearest_root(n) == m,
{
    let k = nearest_root(n);
    assert(is_nearest_root(n, k));
    lemma_nearest_root_order(n, k, m);
    lemma_nearest_root_order(n, m, k);
}

proof fn lemma_nearest_root_order(n: nat, a: nat, b: nat)
    requires
        is_nearest_root(n, a),
        is_nearest_root(n, b),
    ensures
        a >= b,
{
    if a < b {
        let low = grid(a) + grid(a + 1);
        let high = grid((b - 1) as nat) + grid(b);
        lemma_mid_increases(a, (b - 1) as nat);
        assert(low * low <= high * high) by (nonlinear_arith)
            requires
                low <= high,
        ;
        if low < high {
            assert(low * low < high * high) by (nonlinear_arith)
                requires
                    low < high,
            ;
        }
    }
}

/// A value on the grid rounds to itself.
pub proof fn lemma_nearest_exact(m: nat, d: nat)
    requires
        m < INF_MAGNITUDE,
        d > 0,
    ensures
        is_nearest(grid(m) * d, d, m),
        nearest(grid(m) * d, d) == m,
{
    lemma_grid_increases(m, m + 1);
    let g = grid(m);
    let up = grid(m + 1);
    assert(2 * (g * d) < d * (g + up)) by (nonlinear_arith)
        requires
            d > 0,
            g < up,
    ;
    if m > 0 {
        lemma_grid_increases((m - 1) as nat, m);
        let down = grid((m - 1) as nat);
        assert(2 * (g * d) > d * (down + g)) by (nonlinear_arith)
            requires
                d > 0,
                down < g,
        ;
    }
    lemma_nearest_unique(grid(m) * d, d, m);
}

/// What an exact result is known to be before it is rounded: in units of two to the
/// power of minus 298 it is `q * 2^k`, or, where `sticky` is set, lies strictly
/// between that and `(q + 1) * 2^k`.
///
/// `fits` says that every such result rounds to the magnitude `m`.
pub open spec fn fits(q: nat, k: nat, sticky: bool, m: nat) -> bool {
    let low = q * pow2(k);
    &&& m <= INF_MAGNITUDE
    &&& m < INF_MAGNITUDE ==> {
        let mid = (grid(m) + grid(m + 1)) * pow2(148);
        if sticky {
            low + pow2(k) <= mid
        } else {
            low < mid || low == mid && m % 2 == 0
        }
    }
    &&& m > 0 ==> {
        let mid = (grid((m - 1) as nat) + grid(m)) * pow2(148);
        if sticky {
            mid <= low
        } else {
            mid < low || mid == low && m % 2 == 0
        }
    }
}

/// The number of bits that `q` needs.
pub(crate) fn bit_length(q: u128) -> (n: u32)
    ensures
        n <= 128,
        q == 0 ==> n == 0,
        q > 0 ==> n > 0 && pow2((n - 1) as nat) <= q < pow2(n as nat),
{
    proof {
        lemma2_to64();
        lemma2_to64_rest();
    }
    let mut n: u32 = 0;
    let mut t: u128 = q;
    let mut w: u32 = 64;
    let mut p: u128 = 0x1_0000_0000_0000_0000;
    while w > 0
        invariant
            w == 64 && p == pow2(64) || w == 32 && p == pow2(32) || w == 16 && p == pow2(16) || w
                == 8 && p == pow2(8) || w == 4 && p == pow2(4) || w == 2 && p == pow2(2) || w == 1
                && p == pow2(1) || w == 0 && p == 1,
            if w > 0 {
                n + 2 * w <= 128
            } else {
                n <= 127
            },
            t < p * p || w == 0 && t <= 1,
            t * pow2(n as nat) <= q < (t + 1) * pow2(n as nat),
            q > 0 ==> t > 0,
            pow2(64) == 0x1_0000_0000_0000_0000,
        decreases w,
    {
        proof {
            lemma2_to64();
            lemma2_to64_rest();
        }
        if t >= p {
            proof {
                lemma_pow2_pos(n as nat);
                lemma_pow2_adds(n as nat, w as nat);
                let h = t as int / p as int;
                let pn = pow2(n as nat) as int;
                let pp = p as int;
                assert(h * pp <= t < (h + 1) * pp) by (nonlinear_arith)
                    requires
                        pp > 0,
                        h == t as int / pp,
                ;
                assert(h * (pn * pp) <= t * pn) by (nonlinear_arith)
                    requires
                        h * pp <= t,
                        pn > 0,
                ;
                assert((t + 1) * pn <= (h + 1) * (pn * pp)) by (nonlinear_arith)
                    requires
                        t + 1 <= (h + 1) * pp,
                        pn > 0,
                ;
                assert(h < pp) by (nonlinear_arith)
                    requires
                        h * pp <= t,
                        t < pp * pp,
                        pp > 0,
                ;
                assert(h > 0) by (nonlinear_arith)
                    requires
                        t >= pp,
                        pp > 0,
                        t < (h + 1) * pp,
                ;
            }
            t = t / p;
            n = n + w;
        }
        w = w / 2;
        p = if w == 32 {
            0x1_0000_0000
        } else if w == 16 {
            0x1_0000
        } else if w == 8 {
            0x100
        } else if w == 4 {
            0x10
        } else if w == 2 {
            4
        } else if w == 1 {
            2
        } else {
            1
        };
        assert(w > 0 ==> p * p == pow2((2 * w) as nat)) by {
            lemma_pow2_adds(w as nat, w as nat);
        }
    }
    if t == 0 {
        return 0;
    }
    proof {
        assert(t == 1);
        lemma_pow2_unfold((n + 1) as nat);
        assert(1 * pow2(n as nat) == pow2(n as nat));
    }
    n + 1
}

/// The values next to the magnitude `e * 2^23 + s`, in units of two to the power of
/// minus 298.
pub proof fn lemma_scaled_neighbours(s: nat, e: nat)
    requires
        s < 0x100_0000,
        e == 0 || s >= 0x80_0000,
    ensures
        ({
            let m = e * 0x80_0000 + s;
            let unit = pow2(e + 148);
            &&& 2 * (grid(m) * pow2(148)) == 2 * s * unit
            &&& (grid(m) + grid(m + 1)) * pow2(148) == (2 * s + 1) * unit
            &&& 2 * (grid(m + 1) * pow2(148)) == (2 * s + 2) * unit
        }),
{
    let m = e * 0x80_0000 + s;
    let half = pow2(148);
    let p = pow2(e);
    lemma_grid_split(s, e);
    lemma_pow2_adds(e, 148);
    assert(2 * ((s * p) * half) == 2 * s * (p * half)) by (nonlinear_arith);
    assert((s * p + (s + 1) * p) * half == (2 * s + 1) * (p * half)) by (nonlinear_arith);
    assert(2 * (((s + 1) * p) * half) == (2 * s + 2) * (p * half)) by (nonlinear_arith);
}

/// Keeping the significand `s` is right where the exact result lies between `s` and
/// the midpoint above it.
proof fn lemma_fits_down(q: nat, k: nat, sticky: bool, s: nat, e: nat)
    requires
        s < 0x100_0000,
        e == 0 || s >= 0x80_0000,
        e * 0x80_0000 + s < INF_MAGNITUDE,
        2 * s * pow2(e + 148) <= q * pow2(k),
        if sticky {
            q * pow2(k) + pow2(k) <= (2 * s + 1) * pow2(e + 148)
        } else {
            ||| q * pow2(k) < (2 * s + 1) * pow2(e + 148)
            ||| q * pow2(k) == (2 * s + 1) * pow2(e + 148) && s % 2 == 0
        },
    ensures
        fits(q, k, sticky, e * 0x80_0000 + s),
{
    let m = e * 0x80_0000 + s;
    let half = pow2(148);
    lemma_scaled_neighbours(s, e);
    lemma_pow2_pos(148);
    assert(m % 2 == s % 2);
    if m > 0 {
        lemma_grid_increases((m - 1) as nat, m);
        let down = grid((m - 1) as nat);
        let here = grid(m);
        assert((down + here) * half < 2 * (here * half)) by (nonlinear_arith)
            requires
                down < here,
                half > 0,
        ;
    }
}

/// Taking the significand `s + 1` is right where the exact result lies between the
/// midpoint above `s` and `s + 1`.
proof fn lemma_fits_up(q: nat, k: nat, sticky: bool, s: nat, e: nat)
    requires
        s < 0x100_0000,
        e == 0 || s >= 0x80_0000,
        e * 0x80_0000 + s + 1 <= INF_MAGNITUDE,
        if sticky {
            q * pow2(k) + pow2(k) <= (2 * s + 2) * pow2(e + 148)
        } else {
            q * pow2(k) < (2 * s + 2) * pow2(e + 148)
        },
        if sticky {
            (2 * s + 1) * pow2(e + 148) <= q * pow2(k)
        } else {
            ||| (2 * s + 1) * pow2(e + 148) < q * pow2(k)
            ||| (2 * s + 1) * pow2(e + 148) == q * pow2(k) && s % 2 == 1
        },
    ensures
        fits(q, k, sticky, e * 0x80_0000 + s + 1),
{
    let m = e * 0x80_0000 + s + 1;
    let half = pow2(148);
    lemma_scaled_neighbours(s, e);
    lemma_pow2_pos(148);
    assert(m % 2 == (s + 1) % 2);
    assert((m - 1) as nat == e * 0x80_0000 + s);
    lemma_grid_increases(m, m + 1);
    let up = grid(m + 1);
    let here = grid(m);
    assert((here + up) * half > 2 * (here * half)) by (nonlinear_arith)
        requires
            here < up,
            half > 0,
    ;
}

/// Infinity is right where the exact result is at least the value that infinity has
/// on the grid.
proof fn lemma_fits_overflow(q: nat, k: nat, sticky: bool, s: nat, e: nat)
    requires
        s < 0x100_0000,
        e == 0 || s >= 0x80_0000,
        e * 0x80_0000 + s >= INF_MAGNITUDE,
        2 * s * pow2(e + 148) <= q * pow2(k),
    ensures
        fits(q, k, sticky, INF_MAGNITUDE as nat),
{
    let m = e * 0x80_0000 + s;
    let inf = INF_MAGNITUDE as nat;
    let half = pow2(148);
    lemma_scaled_neighbours(s, e);
    lemma_pow2_pos(148);
    if inf < m {
        lemma_grid_increases(inf, m);
    }
    lemma_grid_increases((inf - 1) as nat, inf);
    let top = grid(m);
    let here = grid(inf);
    let down = grid((inf - 1) as nat);
    assert((down + here) * half < 2 * (top * half)) by (nonlinear_arith)
        requires
            down < here,
            here <= top,
            half > 0,
    ;
}

/// Shifting a one gives the powers of two.
pub proof fn lemma_one_shifted(i: u32)
    requires
        i < 128,
    ensures
        (1u128 << i) == pow2(i as nat),
    decreases i,
{
    lemma2_to64();
    if i == 0 {
        assert((1u128 << 0u32) == 1) by (bit_vector);
    } else {
        let j: u32 = (i - 1) as u32;
        lemma_one_shifted(j);
        lemma_pow2_unfold(i as nat);
        assert(i < 128 && i == j + 1 ==> (1u128 << i) == 2 * (1u128 << j)) by (bit_vector);
    }
}

/// The significand of an exact result and whether it has to be rounded up.
///
/// The last bit of the significand has the weight of two to the power of `u`.
pub(crate) fn split_significand(q: u128, k: u32, sticky: bool, n: u32, u: u32) -> (r: (u64, bool))
    requires
        0 < q < pow2(127),
        k <= 1000,
        sticky ==> q >= 0x200_0000,
        0 < n <= 127,
        pow2((n - 1) as nat) <= q < pow2(n as nat),
        u == if n + k > 173 {
            n + k - 24
        } else {
            149
        },
    ensures
        r.0 < 0x100_0000,
        u == 149 || r.0 >= 0x80_0000,
        2 * r.0 * pow2((u - 1) as nat) <= q * pow2(k as nat),
        !r.1 ==> if sticky {
            q * pow2(k as nat) + pow2(k as nat) <= (2 * r.0 + 1) * pow2((u - 1) as nat)
        } else {
            ||| q * pow2(k as nat) < (2 * r.0 + 1) * pow2((u - 1) as nat)
            ||| q * pow2(k as nat) == (2 * r.0 + 1) * pow2((u - 1) as nat) && r.0 % 2 == 0
        },
        r.1 ==> if sticky {
            q * pow2(k as nat) + pow2(k as nat) <= (2 * r.0 + 2) * pow2((u - 1) as nat)
        } else {
            q * pow2(k as nat) < (2 * r.0 + 2) * pow2((u - 1) as nat)
        },
        r.1 ==> if sticky {
            (2 * r.0 + 1) * pow2((u - 1) as nat) <= q * pow2(k as nat)
        } else {
            ||| (2 * r.0 + 1) * pow2((u - 1) as nat) < q * pow2(k as nat)
            ||| (2 * r.0 + 1) * pow2((u - 1) as nat) == q * pow2(k as nat) && r.0 % 2 == 1
        },
{
    let ghost half = pow2((u - 1) as nat);
    let ghost pk = pow2(k as nat);
    proof {
        lemma2_to64();
        lemma_pow2_unfold(u as nat);
        lemma_pow2_pos((u - 1) as nat);
        lemma_pow2_pos(k as nat);
    }
    if u <= k {
        let d: u32 = k - u;
        let ghost pd = pow2(d as nat);
        proof {
            assert(!sticky) by {
                if n < 25 {
                    lemma_pow2_strictly_increases(n as nat, 25);
                }
            }
            lemma_pow2_adds(n as nat, d as nat);
            lemma_pow2_adds((n - 1) as nat, d as nat);
            lemma_pow2_adds(u as nat, d as nat);
            lemma_pow2_pos(d as nat);
            if n + d < 24 {
                lemma_pow2_strictly_increases((n + d) as nat, 24);
            }
            let pn = pow2(n as nat);
            let pm = pow2((n - 1) as nat);
            assert(q * pd < pn * pd) by (nonlinear_arith)
                requires
                    q < pn,
                    pd > 0,
            ;
            assert(pm * pd <= q * pd) by (nonlinear_arith)
                requires
                    pm <= q,
            ;
            assert(pd <= q * pd) by (nonlinear_arith)
                requires
                    q >= 1,
            ;
            assert(d < 24) by {
                if d > 24 {
                    lemma_pow2_strictly_increases(24, d as nat);
                }
            }
            assert(q <= q * pd) by (nonlinear_arith)
                requires
                    pd >= 1,
            ;
            lemma_u64_shl_is_mul(q as u64, d as u64);
        }
        let s: u64 = (q as u64) << (d as u64);
        proof {
            let pu = pow2(u as nat);
            assert(s == q * pd);
            assert(2 * s * half == q * pk) by (nonlinear_arith)
                requires
                    s == q * pd,
                    pk == pu * pd,
                    pu == 2 * half,
            ;
            assert((2 * s + 1) * half == 2 * s * half + half) by (nonlinear_arith);
        }
        (s, false)
    } else {
        let sh: u32 = u - k;
        if sh >= 128 {
            proof {
                lemma_pow2_adds(127, k as nat);
                if 127 + k < u - 1 {
                    lemma_pow2_strictly_increases((127 + k) as nat, (u - 1) as nat);
                }
                let top = pow2(127);
                assert(q * pk + pk <= top * pk) by (nonlinear_arith)
                    requires
                        q + 1 <= top,
                        pk > 0,
                ;
                assert(q * pk >= 0) by (nonlinear_arith)
                    requires
                        q >= 0,
                        pk > 0,
                ;
                assert(2 * 0u64 * half == 0) by (nonlinear_arith);
                assert((2 * 0u64 + 1) * half == half) by (nonlinear_arith);
            }
            (0, false)
        } else {
            proof {
                lemma_u128_shr_is_div(q, sh as u128);
                lemma_one_shifted(sh);
                lemma_one_shifted((sh - 1) as u32);
                lemma_pow2_pos(sh as nat);
                lemma_pow2_unfold(sh as nat);
                lemma_pow2_adds(sh as nat, k as nat);
                lemma_pow2_adds((sh - 1) as nat, k as nat);
            }
            let p: u128 = 1u128 << sh;
            let h: u128 = 1u128 << (sh - 1);
            let top: u128 = q >> (sh as u128);
            let ghost q0 = q as int;
            let ghost p0 = p as int;
            let ghost t0 = top as int;
            proof {
                assert(t0 == q0 / p0);
                assert(t0 * p0 <= q0 < t0 * p0 + p0) by (nonlinear_arith)
                    requires
                        p0 > 0,
                        t0 == q0 / p0,
                ;
                lemma_significand_range(q as nat, n as nat, sh as nat, top as nat, u == 149);
            }
            let s: u64 = top as u64;
            let rem: u128 = q - top * p;
            let up = rem > h || rem == h && (sticky || s % 2 == 1);
            proof {
                let r0 = rem as int;
                let h0 = h as int;
                let k0 = pk as int;
                assert(half == h0 * k0);
                assert(q0 * k0 == 2 * t0 * half + r0 * k0) by (nonlinear_arith)
                    requires
                        q0 == t0 * p0 + r0,
                        p0 == 2 * h0,
                        half == h0 * k0,
                ;
                assert((2 * t0 + 1) * half == 2 * t0 * half + half) by (nonlinear_arith);
                assert((2 * t0 + 2) * half == 2 * t0 * half + 2 * half) by (nonlinear_arith);
                assert(r0 * k0 >= 0) by (nonlinear_arith)
                    requires
                        r0 >= 0,
                        k0 > 0,
                ;
                assert(r0 * k0 + k0 <= 2 * (h0 * k0)) by (nonlinear_arith)
                    requires
                        r0 + 1 <= 2 * h0,
                        k0 > 0,
                ;
                if r0 < h0 {
                    assert(r0 * k0 + k0 <= h0 * k0) by (nonlinear_arith)
                        requires
                            r0 + 1 <= h0,
                            k0 > 0,
                    ;
                } else if r0 > h0 {
                    assert(h0 * k0 < r0 * k0) by (nonlinear_arith)
                        requires
                            r0 > h0,
                            k0 > 0,
                    ;
                }
            }
            (s, up)
        }
    }
}

proof fn lemma_significand_range(q: nat, n: nat, sh: nat, top: nat, least: bool)
    requires
        n > 0,
        pow2((n - 1) as nat) <= q < pow2(n),
        top * pow2(sh) <= q < top * pow2(sh) + pow2(sh),
        n <= sh + 24,
        least || n == sh + 24,
    ensures
        top < 0x100_0000,
        least || top >= 0x80_0000,
{
    lemma2_to64();
    lemma_pow2_pos(sh);
    let p = pow2(sh);
    lemma_pow2_adds(24, sh);
    lemma_pow2_adds(23, sh);
    if n < sh + 24 {
        lemma_pow2_strictly_increases(n, sh + 24);
    }
    assert(top < 0x100_0000) by (nonlinear_arith)
        requires
            top * p < 0x100_0000 * p,
            p > 0,
    ;
    if !least {
        assert(top + 1 > 0x80_0000) by (nonlinear_arith)
            requires
                0x80_0000 * p < top * p + p,
                p > 0,
        ;
    }
}

/// The magnitude that an exact result rounds to, from what is known of the result:
/// see [`fits`].
pub fn round_magnitude(q: u128, k: u32, sticky: bool) -> (m: u32)
    requires
        q < pow2(127),
        k <= 1000,
        sticky ==> q >= 0x200_0000,
    ensures
        fits(q as nat, k as nat, sticky, m as nat),
{
    if q == 0 {
        proof {
            lemma2_to64();
            lemma_pow2_pos(148);
            assert(grid(0) == 0 && grid(1) == 1);
            let half = pow2(148);
            assert((0nat + 1nat) * half == half) by (nonlinear_arith);
            assert(0 * pow2(k as nat) == 0);
        }
        return 0;
    }
    let n = bit_length(q);
    let u: u32 = if n + k > 173 {
        n + k - 24
    } else {
        149
    };
    let (s, up) = split_significand(q, k, sticky, n, u);
    let ghost e = (u - 149) as nat;
    assert(e + 148 == u - 1);
    let m: u64 = (u - 149) as u64 * 0x80_0000 + s;
    if m >= INF_MAGNITUDE as u64 {
        proof {
            lemma_fits_overflow(q as nat, k as nat, sticky, s as nat, e);
        }
        INF_MAGNITUDE
    } else if up {
        proof {
            lemma_fits_up(q as nat, k as nat, sticky, s as nat, e);
        }
        (m + 1) as u32
    } else {
        proof {
            lemma_fits_down(q as nat, k as nat, sticky, s as nat, e);
        }
        m as u32
    }
}

} // verus!
