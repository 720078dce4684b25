//! The square root, rounded once.

use super::arith::{root, unpack};
use super::repr::{grid, F32, INF_MAGNITUDE, NAN_BITS};
use super::round::{fits, lemma_nearest_root_unique, nearest_root, round_magnitude};
use vstd::arithmetic::power2::{
    lemma2_to64, lemma2_to64_rest, lemma_pow2_adds, lemma_pow2_pos, lemma_pow2_strictly_increases,
    lemma_pow2_unfold, pow2,
};
use vstd::prelude::*;

verus! {

/// The whole part of the square root of `x`.
fn whole_root(x: u128) -> (r: u64)
    requires
        x < 0x400_0000_0000_0000_0000_0000,
    ensures
        r * r <= x < (r + 1) * (r + 1),
        r < 0x2000_0000_0000,
{
    let mut low: u64 = 0;
    let mut high: u64 = 0x2000_0000_0000;
    while high - low > 1
        invariant
            low < high <= 0x2000_0000_0000,
            low * low <= x < high * high,
        decreases high - low,
    {
        let mid: u64 = low + (high - low) / 2;
        assert(mid * mid <= 0x2000_0000_0000 * 0x2000_0000_0000) by (nonlinear_arith)
            requires
                mid <= 0x2000_0000_0000,
        ;
        if mid as u128 * mid as u128 <= x {
            low = mid;
        } else {
            high = mid;
        }
    }
    low
}

/// A bracket of the square root of `n` that fits a magnitude rounds to it.
proof fn lemma_fits_root(n: nat, q: nat, j: nat, sticky: bool, m: nat)
    requires
        ({
            let low = q * pow2(j);
            let high = (q + 1) * pow2(j);
            if sticky {
                low * low < n < high * high
            } else {
                n == low * low
            }
        }),
        fits(q, j + 149, sticky, m),
    ensures
        nearest_root(n) == m,
        m <= INF_MAGNITUDE,
{
    let p = pow2(j);
    let low = q * p;
    let high = (q + 1) * p;
    let half = pow2(148);
    lemma_pow2_adds(j, 149);
    lemma_pow2_unfold(149);
    lemma_pow2_pos(148);
    assert(q * (p * (2 * half)) == (2 * low) * half) by (nonlinear_arith)
        requires
            low == q * p,
    ;
    assert((2 * low) * half + p * (2 * half) == (2 * high) * half) by (nonlinear_arith)
        requires
            low == q * p,
            high == (q + 1) * p,
    ;
    if m < INF_MAGNITUDE {
        lemma_root_compare(n, low, high, half, grid(m) + grid(m + 1), sticky);
    }
    if m > 0 {
        lemma_root_compare(n, low, high, half, grid((m - 1) as nat) + grid(m), sticky);
    }
    lemma_nearest_root_unique(n, m);
}

proof fn lemma_root_compare(n: nat, low: nat, high: nat, half: nat, t: nat, sticky: bool)
    requires
        half > 0,
        if sticky {
            low * low < n < high * high
        } else {
            n == low * low
        },
    ensures
        sticky && (2 * high) * half <= t * half ==> 4 * n < t * t,
        sticky && t * half <= (2 * low) * half ==> 4 * n > t * t,
        !sticky && (2 * low) * half < t * half ==> 4 * n < t * t,
        !sticky && (2 * low) * half == t * half ==> 4 * n == t * t,
        !sticky && (2 * low) * half > t * half ==> 4 * n > t * t,
{
    let a = 2 * low;
    let b = 2 * high;
    assert(a * a == 4 * (low * low)) by (nonlinear_arith)
        requires
            a == 2 * low,
    ;
    assert(b * b == 4 * (high * high)) by (nonlinear_arith)
        requires
            b == 2 * high,
    ;
    lemma_order(a, t, half);
    lemma_order(t, a, half);
    lemma_order(b, t, half);
    lemma_order(t, b, half);
}

/// Scaling and squaring keep the order.
proof fn lemma_order(a: nat, b: nat, half: nat)
    requires
        half > 0,
    ensures
        a * half < b * half <==> a < b,
        a < b ==> a * a < b * b,
        a <= b ==> a * a <= b * b,
{
    if a < b {
        assert(a * half < b * half && a * a < b * b) by (nonlinear_arith)
            requires
                a < b,
                half > 0,
        ;
    } else {
        assert(a * half >= b * half) by (nonlinear_arith)
            requires
                a >= b,
        ;
    }
}

impl F32 {
    /// The square root, rounded to the nearest number.
    pub fn sqrt(self) -> (r: F32)
        ensures
            r == root(self),
    {
        proof {
            reveal(root);
        }
        let m = self.magnitude_bits();
        if m > INF_MAGNITUDE {
            return F32 { bits: NAN_BITS };
        }
        if m == 0 {
            return self;
        }
        if self.is_negative() {
            return F32 { bits: NAN_BITS };
        }
        if m == INF_MAGNITUDE {
            return self;
        }
        let (s, e) = unpack(m);
        let odd = e % 2 == 1;
        let scale: u128 = if odd {
            0x1_0000_0000_0000_0000
        } else {
            0x2_0000_0000_0000_0000
        };
        let j: u32 = if odd {
            (e + 85) / 2
        } else {
            (e + 84) / 2
        };
        let x: u128 = s as u128 * scale;
        let r = whole_root(x);
        let sticky = r as u128 * r as u128 != x;
        let ghost n = grid(m as nat) * pow2(149);
        proof {
            lemma2_to64();
            lemma2_to64_rest();
            lemma_pow2_strictly_increases(64, 127);
            lemma_pow2_unfold(65);
            let pj = pow2(j as nat);
            let pe = pow2(e as nat);
            let unit = pow2(149);
            lemma_pow2_adds(j as nat, j as nat);
            lemma_pow2_adds(e as nat, 149);
            if odd {
                lemma_pow2_adds(64, (j + j) as nat);
            } else {
                lemma_pow2_adds(65, (j + j) as nat);
            }
            assert(pe * unit == scale * (pj * pj));
            assert(n == x * (pj * pj)) by (nonlinear_arith)
                requires
                    n == (s * pe) * unit,
                    pe * unit == scale * (pj * pj),
                    x == s * scale,
            ;
            let low = r * pj;
            let high = (r + 1) * pj;
            assert(low * low == (r * r) * (pj * pj)) by (nonlinear_arith)
                requires
                    low == r * pj,
            ;
            assert(high * high == ((r + 1) * (r + 1)) * (pj * pj)) by (nonlinear_arith)
                requires
                    high == (r + 1) * pj,
            ;
            lemma_pow2_pos(j as nat);
            assert(pj * pj > 0) by (nonlinear_arith)
                requires
                    pj > 0,
            ;
            let sq = pj * pj;
            let hh = (r + 1) * (r + 1);
            assert(x * sq < hh * sq) by (nonlinear_arith)
                requires
                    x < hh,
                    sq > 0,
            ;
            if sticky {
                let ll = r * r;
                assert(ll * sq < x * sq) by (nonlinear_arith)
                    requires
                        ll < x,
                        sq > 0,
                ;
                assert(r >= 0x200_0000) by (nonlinear_arith)
                    requires
                        x < (r + 1) * (r + 1),
                        x >= 0x1_0000_0000_0000_0000,
                ;
            }
        }
        let k = round_magnitude(r as u128, j + 149, sticky);
        proof {
            lemma_fits_root(n, r as nat, j as nat, sticky, k as nat);
        }
        F32::pack(false, k)
    }
}

} // verus!
