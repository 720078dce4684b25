//! Sums, products, quotients and square roots, each rounded once.

use super::repr::{
    exponent, grid, lemma_grid_increases, lemma_of_parts, lemma_significand, significand, F32,
    INF_MAGNITUDE, NAN_BITS, SIGN_BIT,
};
use super::round::{
    fits, is_nearest, lemma_nearest_unique, lemma_one_shifted, nearest, nearest_root,
    round_magnitude,
};
use vstd::arithmetic::power2::{
    lemma2_to64, lemma2_to64_rest, lemma_pow2_adds, lemma_pow2_pos, lemma_pow2_strictly_increases,
    lemma_pow2_unfold, pow2,
};
use vstd::prelude::*;

verus! {

/// `-a`.
pub open spec fn negated(a: F32) -> F32 {
    F32::of(!a.negative(), a.magnitude())
}

/// `a + b`, rounded to the nearest number.
#[verifier::opaque]
pub open spec fn sum(a: F32, b: F32) -> F32 {
    if a.is_nan() || b.is_nan() {
        F32::nan()
    } else if a.is_infinite() && b.is_infinite() {
        if a.negative() == b.negative() {
            a
        } else {
            F32::nan()
        }
    } else if a.is_infinite() {
        a
    } else if b.is_infinite() {
        b
    } else {
        let exact = a.scaled() + b.scaled();
        if exact == 0 {
            F32::of(a.negative() && b.negative(), 0)
        } else if exact < 0 {
            F32::of(true, nearest((-exact) as nat, 1))
        } else {
            F32::of(false, nearest(exact as nat, 1))
        }
    }
}

/// `a - b`, rounded to the nearest number.
pub open spec fn difference(a: F32, b: F32) -> F32 {
    sum(a, negated(b))
}

/// `a * b`, rounded to the nearest number.
#[verifier::opaque]
pub open spec fn product(a: F32, b: F32) -> F32 {
    let negative = a.negative() != b.negative();
    if a.is_nan() || b.is_nan() {
        F32::nan()
    } else if a.is_infinite() || b.is_infinite() {
        if a.is_zero() || b.is_zero() {
            F32::nan()
        } else {
            F32::of(negative, INF_MAGNITUDE as nat)
        }
    } else {
        F32::of(negative, nearest(grid(a.magnitude()) * grid(b.magnitude()), pow2(149)))
    }
}

/// `a / b`, rounded to the nearest number.
#[verifier::opaque]
pub open spec fn quotient(a: F32, b: F32) -> F32 {
    let negative = a.negative() != b.negative();
    if a.is_nan() || b.is_nan() {
        F32::nan()
    } else if a.is_infinite() {
        if b.is_infinite() {
            F32::nan()
        } else {
            F32::of(negative, INF_MAGNITUDE as nat)
        }
    } else if b.is_infinite() {
        F32::of(negative, 0)
    } else if b.is_zero() {
        if a.is_zero() {
            F32::nan()
        } else {
            F32::of(negative, INF_MAGNITUDE as nat)
        }
    } else {
        F32::of(negative, nearest(grid(a.magnitude()) * pow2(149), grid(b.magnitude())))
    }
}

/// The square root of `a`, rounded to the nearest number.
#[verifier::opaque]
pub open spec fn root(a: F32) -> F32 {
    if a.is_nan() {
        F32::nan()
    } else if a.is_zero() {
        a
    } else if a.negative() {
        F32::nan()
    } else if a.is_infinite() {
        a
    } else {
        F32::of(false, nearest_root(grid(a.magnitude()) * pow2(149)))
    }
}

/// What is known of `n / d` before it is rounded, in the sense of [`fits`].
spec fn brackets(n: nat, d: nat, q: nat, k: nat, sticky: bool) -> bool {
    if sticky {
        q * pow2(k) * d < n * pow2(149) < (q * pow2(k) + pow2(k)) * d
    } else {
        n * pow2(149) == q * pow2(k) * d
    }
}

proof fn lemma_fits_quotient(n: nat, d: nat, q: nat, k: nat, sticky: bool, m: nat)
    requires
        d > 0,
        brackets(n, d, q, k, sticky),
        fits(q, k, sticky, m),
    ensures
        nearest(n, d) == m,
        m <= INF_MAGNITUDE,
{
    let low = q * pow2(k);
    let step = pow2(k);
    let half = pow2(148);
    lemma_pow2_pos(148);
    lemma_pow2_pos(k);
    lemma_pow2_unfold(149);
    assert(n * (2 * half) == (2 * n) * half) by (nonlinear_arith);
    if m < INF_MAGNITUDE {
        let t = grid(m) + grid(m + 1);
        lemma_scale_compare(n, d, low, step, half, t, sticky);
    }
    if m > 0 {
        let t = grid((m - 1) as nat) + grid(m);
        lemma_scale_compare(n, d, low, step, half, t, sticky);
    }
    lemma_nearest_unique(n, d, m);
}

/// Comparing the bracket of a quotient with a midpoint compares the quotient with it.
proof fn lemma_scale_compare(n: nat, d: nat, low: nat, step: nat, half: nat, t: nat, sticky: bool)
    requires
        d > 0,
        half > 0,
        if sticky {
            low * d < (2 * n) * half < (low + step) * d
        } else {
            (2 * n) * half == low * d
        },
    ensures
        sticky && low + step <= t * half ==> 2 * n < d * t,
        sticky && t * half <= low ==> 2 * n > d * t,
        !sticky && low < t * half ==> 2 * n < d * t,
        !sticky && low == t * half ==> 2 * n == d * t,
        !sticky && low > t * half ==> 2 * n > d * t,
{
    let x = 2 * n;
    assert((d * t) * half == (t * half) * d) by (nonlinear_arith);
    if sticky {
        if low + step <= t * half {
            let a = low + step;
            let b = t * half;
            assert(a * d <= b * d) by (nonlinear_arith)
                requires
                    a <= b,
            ;
            assert(x < d * t) by (nonlinear_arith)
                requires
                    x * half < (d * t) * half,
                    half > 0,
            ;
        }
        if t * half <= low {
            let b = t * half;
            assert(b * d <= low * d) by (nonlinear_arith)
                requires
                    b <= low,
            ;
            assert(x > d * t) by (nonlinear_arith)
                requires
                    x * half > (d * t) * half,
                    half > 0,
            ;
        }
    } else {
        let b = t * half;
        if low < b {
            assert(low * d < b * d) by (nonlinear_arith)
                requires
                    low < b,
                    d > 0,
            ;
            assert(x < d * t) by (nonlinear_arith)
                requires
                    x * half < (d * t) * half,
                    half > 0,
            ;
        } else if low == b {
            assert(x == d * t) by (nonlinear_arith)
                requires
                    x * half == (d * t) * half,
                    half > 0,
            ;
        } else {
            assert(low * d > b * d) by (nonlinear_arith)
                requires
                    low > b,
                    d > 0,
            ;
            assert(x > d * t) by (nonlinear_arith)
                requires
                    x * half > (d * t) * half,
                    half > 0,
            ;
        }
    }
}

/// The significand and the exponent of a magnitude that is no NaN.
pub fn unpack(m: u32) -> (r: (u32, u32))
    requires
        m <= INF_MAGNITUDE,
    ensures
        r.0 == significand(m as nat),
        r.1 == exponent(m as nat),
        r.0 < 0x100_0000,
        r.1 <= 254,
        r.1 == 0 || r.0 >= 0x80_0000,
        grid(m as nat) == r.0 * pow2(r.1 as nat),
        m > 0 <==> r.0 > 0,
{
    proof {
        lemma_significand(m as nat);
    }
    if m < 0x80_0000 {
        (m, 0)
    } else {
        (0x80_0000 + m % 0x80_0000, m / 0x80_0000 - 1)
    }
}

impl F32 {
    pub(crate) fn is_negative(self) -> (r: bool)
        ensures
            r == self.negative(),
    {
        self.bits >= SIGN_BIT
    }

    pub(crate) fn magnitude_bits(self) -> (r: u32)
        ensures
            r == self.magnitude(),
    {
        self.bits % SIGN_BIT
    }

    /// The number with the given sign and magnitude.
    pub(crate) fn pack(negative: bool, magnitude: u32) -> (r: F32)
        requires
            magnitude < SIGN_BIT,
        ensures
            r == F32::of(negative, magnitude as nat),
    {
        if negative {
            F32 { bits: SIGN_BIT + magnitude }
        } else {
            F32 { bits: magnitude }
        }
    }

    /// `-self`.
    pub fn negate(self) -> (r: F32)
        ensures
            r == negated(self),
    {
        F32::pack(!self.is_negative(), self.magnitude_bits())
    }

    /// `self * other`, rounded to the nearest number.
    pub fn times(self, other: F32) -> (r: F32)
        ensures
            r == product(self, other),
    {
        proof {
            reveal(product);
        }
        let negative = self.is_negative() != other.is_negative();
        let ma = self.magnitude_bits();
        let mb = other.magnitude_bits();
        if ma > INF_MAGNITUDE || mb > INF_MAGNITUDE {
            return F32 { bits: NAN_BITS };
        }
        if ma == INF_MAGNITUDE || mb == INF_MAGNITUDE {
            if ma == 0 || mb == 0 {
                return F32 { bits: NAN_BITS };
            }
            return F32::pack(negative, INF_MAGNITUDE);
        }
        let (sa, ka) = unpack(ma);
        let (sb, kb) = unpack(mb);
        assert(sa * sb < 0x1_0000_0000_0000) by (nonlinear_arith)
            requires
                sa < 0x100_0000,
                sb < 0x100_0000,
        ;
        let q: u64 = sa as u64 * sb as u64;
        let ghost n = grid(ma as nat) * grid(mb as nat);
        proof {
            lemma2_to64();
            lemma2_to64_rest();
            lemma_pow2_strictly_increases(64, 127);
            lemma_pow2_adds(ka as nat, kb as nat);
            lemma_pow2_pos(149);
            let pa = pow2(ka as nat);
            let pb = pow2(kb as nat);
            assert((sa * pa) * (sb * pb) == (sa * sb) * (pa * pb)) by (nonlinear_arith);
        }
        let m = round_magnitude(q as u128, ka + kb, false);
        proof {
            lemma_fits_quotient(n, pow2(149), q as nat, (ka + kb) as nat, false, m as nat);
        }
        F32::pack(negative, m)
    }

    /// `self / other`, rounded to the nearest number.
    pub fn over(self, other: F32) -> (r: F32)
        ensures
            r == quotient(self, other),
    {
        proof {
            reveal(quotient);
        }
        let negative = self.is_negative() != other.is_negative();
        let ma = self.magnitude_bits();
        let mb = other.magnitude_bits();
        if ma > INF_MAGNITUDE || mb > INF_MAGNITUDE {
            return F32 { bits: NAN_BITS };
        }
        if ma == INF_MAGNITUDE {
            if mb == INF_MAGNITUDE {
                return F32 { bits: NAN_BITS };
            }
            return F32::pack(negative, INF_MAGNITUDE);
        }
        if mb == INF_MAGNITUDE {
            return F32::pack(negative, 0);
        }
        if mb == 0 {
            if ma == 0 {
                return F32 { bits: NAN_BITS };
            }
            return F32::pack(negative, INF_MAGNITUDE);
        }
        let (sa, ka) = unpack(ma);
        let (sb, kb) = unpack(mb);
        let ghost n = grid(ma as nat) * pow2(149);
        let ghost d = grid(mb as nat);
        proof {
            lemma_pow2_pos(kb as nat);
            assert(d > 0) by (nonlinear_arith)
                requires
                    d == sb * pow2(kb as nat),
                    sb > 0,
                    pow2(kb as nat) > 0,
            ;
        }
        if kb > ka + 234 {
            proof {
                lemma_quotient_vanishes(sa as nat, ka as nat, sb as nat, kb as nat);
                lemma_nearest_unique(n, d, 0);
            }
            return F32::pack(negative, 0);
        }
        let num: u128 = sa as u128 * 0x1_0000_0000_0000_0000;
        let q: u128 = num / sb as u128;
        let sticky = num % sb as u128 != 0;
        let k: u32 = ka + 234 - kb;
        proof {
            lemma_quotient_brackets(sa as nat, ka as nat, sb as nat, kb as nat);
            lemma_pow2_adds(64, 24);
            lemma2_to64();
            lemma2_to64_rest();
            lemma_pow2_strictly_increases(88, 127);
        }
        let m = round_magnitude(q, k, sticky);
        proof {
            lemma_fits_quotient(n, d, q as nat, k as nat, sticky, m as nat);
        }
        F32::pack(negative, m)
    }
}

/// A quotient with a divisor that much larger rounds to zero.
proof fn lemma_quotient_vanishes(sa: nat, ka: nat, sb: nat, kb: nat)
    requires
        sa < 0x100_0000,
        sb >= 0x80_0000,
        kb > ka + 234,
    ensures
        is_nearest((sa * pow2(ka)) * pow2(149), sb * pow2(kb), 0),
{
    lemma2_to64();
    lemma_pow2_adds(24, ka);
    lemma_pow2_adds(24 + ka, 149);
    lemma_pow2_unfold(174 + ka);
    lemma_pow2_adds(23, kb);
    lemma_pow2_strictly_increases(174 + ka, 23 + kb);
    let pa = pow2(ka);
    let pb = pow2(kb);
    let unit = pow2(149);
    lemma_pow2_pos(ka);
    lemma_pow2_pos(149);
    assert((sa * pa) * unit <= (0x100_0000 * pa) * unit) by (nonlinear_arith)
        requires
            sa < 0x100_0000,
            pa > 0,
            unit > 0,
    ;
    assert(sb * pb >= 0x80_0000 * pb) by (nonlinear_arith)
        requires
            sb >= 0x80_0000,
    ;
    assert(grid(0) == 0 && grid(1) == 1);
    let d = sb * pb;
    assert(d * (0nat + 1nat) == d) by (nonlinear_arith);
}

/// The whole quotient of the significands, taken with sixty-four more bits, brackets
/// the quotient.
proof fn lemma_quotient_brackets(sa: nat, ka: nat, sb: nat, kb: nat)
    requires
        sa < 0x100_0000,
        0 < sb < 0x100_0000,
        kb <= ka + 234,
    ensures
        ({
            let num = sa * 0x1_0000_0000_0000_0000;
            let q = num / sb;
            let sticky = num % sb != 0;
            let k = (ka + 234 - kb) as nat;
            &&& brackets((sa * pow2(ka)) * pow2(149), sb * pow2(kb), q, k, sticky)
            &&& q <= num
            &&& sticky ==> q >= 0x200_0000
        }),
{
    let num = sa * 0x1_0000_0000_0000_0000;
    let q = num / sb;
    let rem = num % sb;
    let k = (ka + 234 - kb) as nat;
    let pk = pow2(k);
    let pb = pow2(kb);
    let pa = pow2(ka);
    let unit = pow2(149);
    lemma2_to64();
    lemma2_to64_rest();
    lemma_pow2_pos(k);
    lemma_pow2_pos(kb);
    assert(num == q * sb + rem && rem < sb) by (nonlinear_arith)
        requires
            sb > 0,
            q == num / sb,
            rem == num % sb,
    ;
    assert(q <= num) by (nonlinear_arith)
        requires
            num == q * sb + rem,
            sb >= 1,
    ;
    let both = pow2(ka + 234);
    lemma_pow2_adds(k, kb);
    lemma_pow2_adds(149, 149);
    lemma_pow2_adds(ka, 298);
    lemma_pow2_adds(64, ka + 234);
    assert(both == pk * pb);
    let exact = ((sa * pa) * unit) * unit;
    assert(exact == sa * (pa * (unit * unit))) by (nonlinear_arith)
        requires
            exact == ((sa * pa) * unit) * unit,
    ;
    assert(pa * (unit * unit) == 0x1_0000_0000_0000_0000 * both);
    assert(sa * (0x1_0000_0000_0000_0000 * both) == num * both) by (nonlinear_arith)
        requires
            num == sa * 0x1_0000_0000_0000_0000,
    ;
    assert(num * both == (q * pk) * (sb * pb) + rem * both) by (nonlinear_arith)
        requires
            num == q * sb + rem,
            both == pk * pb,
    ;
    assert((q * pk + pk) * (sb * pb) == (q * pk) * (sb * pb) + sb * both) by (nonlinear_arith)
        requires
            both == pk * pb,
    ;
    lemma_pow2_pos(ka + 234);
    if rem == 0 {
        assert(0 * both == 0);
    } else {
        assert(0 < rem * both < sb * both) by (nonlinear_arith)
            requires
                0 < rem < sb,
                both > 0,
        ;
        assert(sa > 0) by {
            if sa == 0 {
                assert(num == 0);
            }
        }
        assert(q >= 0x200_0000) by (nonlinear_arith)
            requires
                num == q * sb + rem,
                rem < sb,
                sb < 0x100_0000,
                num >= 0x1_0000_0000_0000_0000,
        ;
    }
}

/// The magnitude that the value `q * 2^k` rounds to, where the value is in units of
/// the smallest positive number.
pub(crate) fn round_whole(q: u128, k: u32) -> (m: u32)
    requires
        q < pow2(127),
        k <= 400,
    ensures
        m as nat == nearest(q as nat * pow2(k as nat), 1),
        m <= INF_MAGNITUDE,
{
    let m = round_magnitude(q, k + 149, false);
    proof {
        lemma_pow2_adds(k as nat, 149);
        let pk = pow2(k as nat);
        let unit = pow2(149);
        assert((q * pk) * unit == (q * (pk * unit)) * 1) by (nonlinear_arith);
        let n = q as nat * pow2(k as nat);
        lemma_fits_quotient(n, 1, q as nat, (k + 149) as nat, false, m as nat);
    }
    m
}

/// Adding a number that is far below the last bit of another changes nothing.
proof fn lemma_sum_absorbs(m: nat, small: nat, exact: nat)
    requires
        m < INF_MAGNITUDE,
        exponent(m) >= 2,
        4 * small < pow2(exponent(m)),
        grid(m) <= exact + small,
        exact <= grid(m) + small,
    ensures
        nearest(exact, 1) == m,
{
    lemma_significand(m);
    lemma_significand((m - 1) as nat);
    let e = exponent(m);
    let p = pow2(e);
    let s = significand(m);
    lemma_pow2_unfold(e);
    assert((s + 1) * p == s * p + p) by (nonlinear_arith);
    let f = exponent((m - 1) as nat);
    let pf = pow2(f);
    let t = significand((m - 1) as nat);
    assert(f >= e - 1);
    if f > e - 1 {
        lemma_pow2_strictly_increases((e - 1) as nat, f);
    }
    assert((t + 1) * pf == t * pf + pf) by (nonlinear_arith);
    assert(grid(m) == grid((m - 1) as nat) + pf);
    lemma_nearest_unique(exact, 1, m);
}

impl F32 {
    /// `self + other`, rounded to the nearest number.
    pub fn plus(self, other: F32) -> (r: F32)
        ensures
            r == sum(self, other),
    {
        proof {
            reveal(sum);
        }
        let ma = self.magnitude_bits();
        let mb = other.magnitude_bits();
        if ma > INF_MAGNITUDE || mb > INF_MAGNITUDE {
            return F32 { bits: NAN_BITS };
        }
        if ma == INF_MAGNITUDE && mb == INF_MAGNITUDE {
            if self.is_negative() == other.is_negative() {
                return self;
            }
            return F32 { bits: NAN_BITS };
        }
        if ma == INF_MAGNITUDE {
            return self;
        }
        if mb == INF_MAGNITUDE {
            return other;
        }
        if ma >= mb {
            F32::sum_ordered(self, other)
        } else {
            F32::sum_ordered(other, self)
        }
    }

    /// The sum of two finite numbers, the first of which has the larger magnitude.
    fn sum_ordered(a: F32, b: F32) -> (r: F32)
        requires
            a.is_finite(),
            b.is_finite(),
            a.magnitude() >= b.magnitude(),
        ensures
            r == sum(a, b),
    {
        proof {
            reveal(sum);
        }
        let na = a.is_negative();
        let nb = b.is_negative();
        let ma = a.magnitude_bits();
        let mb = b.magnitude_bits();
        let (sa, ka) = unpack(ma);
        let (sb, kb) = unpack(mb);
        let ghost ga = grid(ma as nat);
        let ghost gb = grid(mb as nat);
        proof {
            if mb < ma {
                lemma_grid_increases(mb as nat, ma as nat);
            }
            lemma2_to64();
            lemma2_to64_rest();
        }
        let diff: u32 = ka - kb;
        if diff > 100 {
            proof {
                lemma_pow2_adds(24, kb as nat);
                let pb = pow2(kb as nat);
                lemma_pow2_pos(kb as nat);
                assert(sb * pb < 0x100_0000 * pb) by (nonlinear_arith)
                    requires
                        sb < 0x100_0000,
                        pb > 0,
                ;
                lemma_pow2_unfold((25 + kb) as nat);
                lemma_pow2_unfold((26 + kb) as nat);
                lemma_pow2_strictly_increases((26 + kb) as nat, ka as nat);
                let exact = if na == nb {
                    ga + gb
                } else {
                    (ga - gb) as nat
                };
                assert(exact > 0) by {
                    let pa = pow2(ka as nat);
                    lemma_pow2_pos(ka as nat);
                    assert(sa * pa >= pa) by (nonlinear_arith)
                        requires
                            sa >= 1,
                    ;
                }
                lemma_sum_absorbs(ma as nat, gb, exact);
                lemma_of_parts(a);
            }
            return a;
        }
        proof {
            lemma_one_shifted(diff);
            lemma_pow2_pos(diff as nat);
            lemma_pow2_adds(24, diff as nat);
            if diff < 100 {
                lemma_pow2_strictly_increases(diff as nat, 100);
            }
            lemma_pow2_adds(24, 100);
            lemma_pow2_adds(diff as nat, kb as nat);
            lemma_pow2_strictly_increases(124, 126);
            lemma_pow2_unfold(127);
            let pd = pow2(diff as nat);
            let pb = pow2(kb as nat);
            let top = pow2(100);
            assert(sa * pd <= 0x100_0000 * top) by (nonlinear_arith)
                requires
                    sa < 0x100_0000,
                    pd <= top,
            ;
            lemma_pow2_strictly_increases(24, 126);
            assert(pow2(126) <= 0x4000_0000_0000_0000_0000_0000_0000_0000) by {
                lemma_pow2_adds(63, 63);
            }
            assert((sa * pd) * pb == sa * (pd * pb)) by (nonlinear_arith);
            assert((sa * pd + sb) * pb == (sa * pd) * pb + sb * pb) by (nonlinear_arith);
            assert((sa * pd - sb) * pb == (sa * pd) * pb - sb * pb) by (nonlinear_arith);
            lemma_pow2_pos(kb as nat);
            assert(sa * pd >= sb) by (nonlinear_arith)
                requires
                    (sa * pd) * pb >= sb * pb,
                    pb > 0,
            ;
        }
        let wide: u128 = sa as u128 * (1u128 << diff);
        if na == nb {
            let q: u128 = wide + sb as u128;
            if q == 0 {
                proof {
                    assert(ga == 0 && gb == 0) by {
                        assert(0 * pow2(kb as nat) == 0);
                    }
                }
                return F32::pack(na, 0);
            }
            assert(q * pow2(kb as nat) == ga + gb);
            assert(ga + gb > 0) by (nonlinear_arith)
                requires
                    q * pow2(kb as nat) == ga + gb,
                    q > 0,
                    pow2(kb as nat) > 0,
            ;
            let m = round_whole(q, kb);
            F32::pack(na, m)
        } else {
            let q: u128 = wide - sb as u128;
            if q == 0 {
                proof {
                    assert(ga == gb) by {
                        assert(0 * pow2(kb as nat) == 0);
                    }
                }
                return F32::pack(false, 0);
            }
            assert(q * pow2(kb as nat) == ga - gb);
            assert(ga - gb > 0) by (nonlinear_arith)
                requires
                    q * pow2(kb as nat) == ga - gb,
                    q > 0,
                    pow2(kb as nat) > 0,
            ;
            let m = round_whole(q, kb);
            F32::pack(na, m)
        }
    }

    /// `self - other`, rounded to the nearest number.
    pub fn minus(self, other: F32) -> (r: F32)
        ensures
            r == difference(self, other),
    {
        self.plus(other.negate())
    }
}

} // verus!
