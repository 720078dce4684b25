//! What the radius, the exponents and the weights of a kernel are worth, in exact numbers.

use crate::blur::GaussianBlur;
use crate::brightness::{
    are_normalized, are_plain, decays, exact_sum, law_kernel_from_exponentials_is_normalized,
    lemma_exact_sum_bounds, lemma_exponent, lemma_gaussian_divisor, lemma_gaussian_value,
    lemma_inverse, lemma_running_sum_error, MAX_BOUNDED_WEIGHTS,
};
use crate::float::arith::{negated, product, quotient, root};
use crate::float::convert::{ceiling_i32, of_int};
use crate::float::error::{
    lemma_near_cancel, lemma_near_same, lemma_near_scale, lemma_near_trans, lemma_rounding_error,
    lemma_small_rounding_error, near,
};
use crate::float::numbers::{one, pi, three, two};
use crate::float::order::{is_plain, lemma_nearest, lemma_of_int_exact};
use crate::float::repr::{grid, lemma_parts_of, F32, INF_MAGNITUDE};
use crate::float::round::{lemma_nearest_exact, nearest};
use crate::kernel::{
    are_exponentials, distance, effective_radius, gaussian_exponent, gaussian_values,
    gaussian_weights, is_gaussian, GaussianKernel,
};
use crate::sampling::running_sum;
use vstd::arithmetic::power2::{
    lemma2_to64, lemma2_to64_rest, lemma_pow2_adds, lemma_pow2_pos, lemma_pow2_strictly_increases,
    pow2,
};
use vstd::prelude::*;

verus! {

/// Two and three, in units of two to the power of minus 149.
pub proof fn lemma_two_and_three()
    ensures
        is_plain(two()),
        two().is_finite(),
        grid(two().magnitude()) == 2 * pow2(149),
        is_plain(three()),
        three().is_finite(),
        grid(three().magnitude()) == 3 * pow2(149),
{
    lemma2_to64();
    lemma_pow2_adds(22, 127);
    lemma_pow2_adds(23, 127);
    lemma_pow2_adds(1, 149);
    assert(two().magnitude() / 0x80_0000 == 128 && two().magnitude() % 0x80_0000 == 0);
    assert(three().magnitude() / 0x80_0000 == 128 && three().magnitude() % 0x80_0000 == 0x40_0000);
    let p = pow2(127);
    assert((0x80_0000 + 0x40_0000nat) * p == 3 * (0x40_0000 * p)) by (nonlinear_arith);
}

/// Three times a number, with its error.
proof fn lemma_three_times(sigma: F32)
    requires
        is_plain(sigma),
        sigma.is_finite(),
        3 * grid(sigma.magnitude()) < pow2(276),
    ensures
        is_plain(product(three(), sigma)),
        product(three(), sigma).is_finite(),
        near(
            grid(product(three(), sigma).magnitude()) as int,
            3 * grid(sigma.magnitude()) as int,
            1,
        ),
{
    lemma_two_and_three();
    let g = grid(sigma.magnitude());
    let unit = pow2(149);
    lemma_pow2_pos(149);
    let n = (3 * unit) * g;
    assert(n == (3 * g) * unit) by (nonlinear_arith)
        requires
            n == (3 * unit) * g,
    ;
    let m = nearest(n, unit);
    assert(product(three(), sigma) == F32::of(false, m)) by {
        reveal(product);
    }
    if 3 * g < 0x80_0000 {
        assert(grid((3 * g) as nat) == 3 * g);
        lemma_nearest_exact((3 * g) as nat, unit);
        lemma_parts_of(false, m);
        lemma_near_same(3 * g as int, 1);
    } else {
        assert(unit * 0x80_0000 <= n < unit * pow2(276)) by (nonlinear_arith)
            requires
                n == (3 * g) * unit,
                0x80_0000 <= 3 * g < pow2(276),
                unit > 0,
        ;
        lemma_rounding_error(n, unit);
        lemma_parts_of(false, m);
        lemma_near_cancel(grid(m) as int, 3 * g as int, unit as int, 1);
    }
}

/// Where no radius is given, it is the least whole number that is not below three times sigma,
/// but for one rounding, as long as that fits into a 32-bit integer.
pub proof fn law_default_radius_is_three_sigma(sigma: F32)
    requires
        !sigma.negative(),
        sigma.is_finite(),
        3 * grid(sigma.magnitude()) < 0x7fff_ffff * pow2(149),
    ensures
        ({
            let r = effective_radius(sigma, None);
            let unit = pow2(149);
            let three_sigma = 3 * grid(sigma.magnitude());
            &&& 0x100_0000 * (r * unit) >= 0xff_ffff * three_sigma
            &&& 0x100_0000 * ((r - 1) * unit) < 0x100_0001 * three_sigma
        }),
{
    let g = grid(sigma.magnitude());
    let unit = pow2(149) as int;
    let want = 3 * g as int;
    lemma_pow2_pos(149);
    lemma2_to64();
    lemma2_to64_rest();
    lemma_pow2_adds(31, 149);
    lemma_pow2_strictly_increases(180, 276);
    lemma_three_times(sigma);
    let p = grid(product(three(), sigma).magnitude()) as int;
    let top = p + unit - 1;
    let c = top / unit;
    vstd::arithmetic::div_mod::lemma_fundamental_div_mod(top, unit);
    assert(c * unit >= p && (c - 1) * unit < p) by (nonlinear_arith)
        requires
            top == unit * c + top % unit,
            0 <= top % unit < unit,
            top == p + unit - 1,
    ;
    assert(c >= 0) by (nonlinear_arith)
        requires
            c * unit >= p,
            p >= 0,
            unit > 0,
    ;
    let r = effective_radius(sigma, None);
    assert(r == if c > 0x7fff_ffff {
        0x7fff_ffff
    } else {
        c
    }) by {
        reveal(ceiling_i32);
    }
    if c > 0x7fff_ffff {
        assert((c - 1) * unit >= 0x7fff_ffff * unit) by (nonlinear_arith)
            requires
                c > 0x7fff_ffff,
                unit > 0,
        ;
    }
    assert((r - 1) * unit == r * unit - unit) by (nonlinear_arith);
}

/// Where no radius is given and sigma is no number, the radius is zero; where three times sigma is
/// far too large for a 32-bit integer, it is the largest one. Below zero it is the least whole
/// number that is not below three times sigma too, but for one rounding.
pub proof fn law_default_radius_of_unusual_sigma(sigma: F32)
    ensures
        sigma.is_nan() ==> effective_radius(sigma, None) == 0,
        !sigma.negative() && (sigma.is_infinite() || sigma.is_finite() && 0x8000_0100 * pow2(149)
            <= 3 * grid(sigma.magnitude()) < pow2(276)) ==> effective_radius(sigma, None)
            == 0x7fff_ffff,
        sigma.negative() && sigma.is_finite() && 3 * grid(sigma.magnitude()) < 0x7fff_ffff * pow2(
            149,
        ) ==> {
            let r = effective_radius(sigma, None);
            let unit = pow2(149);
            let three_sigma = 3 * grid(sigma.magnitude());
            &&& 0x100_0000 * (-r * unit) <= 0x100_0001 * three_sigma
            &&& 0x100_0000 * ((-r + 1) * unit) > 0xff_ffff * three_sigma
        },
{
    let unit = pow2(149) as int;
    lemma_pow2_pos(149);
    lemma2_to64();
    lemma2_to64_rest();
    lemma_pow2_adds(31, 149);
    lemma_pow2_strictly_increases(180, 276);
    lemma_two_and_three();
    reveal(ceiling_i32);
    let m = sigma.magnitude();
    let positive = F32::of(false, m);
    lemma_parts_of(false, m);
    if sigma.is_nan() {
        reveal(product);
    } else if sigma.is_infinite() {
        if !sigma.negative() {
            assert(product(three(), sigma) == F32::of(false, INF_MAGNITUDE as nat)) by {
                reveal(product);
                assert(grid(0) == 0);
            }
            lemma_parts_of(false, INF_MAGNITUDE as nat);
            let inf = INF_MAGNITUDE as nat;
            assert(inf / 0x80_0000 == 255 && inf % 0x80_0000 == 0);
            lemma_pow2_strictly_increases(180, 254);
            let large = pow2(254) as int;
            assert(grid(inf) == 0x80_0000 * large);
            assert(large > 0x8000_0000 * unit);
            assert(0x80_0000 * large >= large);
            lemma_large_ceiling(grid(inf) as int);
        }
    } else if 3 * grid(m) < pow2(276) {
        lemma_three_times(positive);
        let p = product(three(), positive).magnitude();
        assert(product(three(), sigma) == F32::of(sigma.negative(), p)) by {
            reveal(product);
            lemma_nearest(grid(three().magnitude()) * grid(m), pow2(149));
            lemma_parts_of(false, nearest(grid(three().magnitude()) * grid(m), pow2(149)));
        }
        lemma_parts_of(sigma.negative(), p);
        let g = grid(p) as int;
        if !sigma.negative() {
            if 0x8000_0100 * pow2(149) <= 3 * grid(m) {
                lemma_large_ceiling(g);
            }
        } else {
            let whole = g / unit;
            vstd::arithmetic::div_mod::lemma_fundamental_div_mod(g, unit);
            assert(whole * unit <= g < (whole + 1) * unit && whole >= 0) by (nonlinear_arith)
                requires
                    g == unit * whole + g % unit,
                    0 <= g % unit < unit,
                    g >= 0,
                    unit > 0,
            ;
            if 3 * grid(m) < 0x7fff_ffff * pow2(149) {
                let r = effective_radius(sigma, None);
                assert(r == if whole > 0x8000_0000 {
                    -0x8000_0000int
                } else {
                    -whole
                });
                assert(-r * unit <= whole * unit && (-r + 1) * unit == -r * unit + unit)
                    by (nonlinear_arith)
                    requires
                        -r <= whole,
                        unit > 0,
                ;
                assert((whole + 1) * unit == whole * unit + unit) by (nonlinear_arith);
            }
        }
    }
}

/// The ceiling of a value beyond the 32-bit integers.
proof fn lemma_large_ceiling(g: int)
    requires
        g >= 0x8000_0000 * pow2(149),
    ensures
        (g + pow2(149) - 1) / pow2(149) as int > 0x7fff_ffff,
{
    let unit = pow2(149) as int;
    lemma_pow2_pos(149);
    let top = g + unit - 1;
    vstd::arithmetic::div_mod::lemma_fundamental_div_mod(top, unit);
    let c = top / unit;
    assert(c > 0x7fff_ffff) by (nonlinear_arith)
        requires
            top == unit * c + top % unit,
            0 <= top % unit < unit,
            top == g + unit - 1,
            g >= 0x8000_0000 * unit,
            unit > 0,
    ;
}

/// A given radius is taken as it is.
pub proof fn law_given_radius_is_kept(sigma: F32, radius: i32)
    ensures
        effective_radius(sigma, Some(radius)) == radius,
{
}

/// A product of numbers of ordinary size, with its error.
pub proof fn lemma_product_error(a: F32, b: F32)
    requires
        is_plain(a),
        a.is_finite(),
        is_plain(b),
        b.is_finite(),
        pow2(172) <= grid(a.magnitude()) * grid(b.magnitude()) < pow2(425),
    ensures
        is_plain(product(a, b)),
        product(a, b).is_finite(),
        near(
            (grid(product(a, b).magnitude()) * pow2(149)) as int,
            (grid(a.magnitude()) * grid(b.magnitude())) as int,
            1,
        ),
{
    let n = grid(a.magnitude()) * grid(b.magnitude());
    let unit = pow2(149);
    lemma_pow2_pos(149);
    lemma2_to64();
    lemma_pow2_adds(149, 23);
    lemma_pow2_adds(149, 276);
    lemma_rounding_error(n, unit);
    lemma_parts_of(false, nearest(n, unit));
    reveal(product);
}

/// A quotient of numbers of ordinary size, with its error.
pub proof fn lemma_quotient_error(a: F32, b: F32)
    requires
        a.is_finite(),
        is_plain(b),
        b.is_finite(),
        grid(b.magnitude()) > 0,
        grid(b.magnitude()) * pow2(23) <= grid(a.magnitude()) * pow2(149) < grid(b.magnitude())
            * pow2(276),
    ensures
        quotient(a, b).negative() == a.negative(),
        quotient(a, b).is_finite(),
        near(
            (grid(quotient(a, b).magnitude()) * grid(b.magnitude())) as int,
            (grid(a.magnitude()) * pow2(149)) as int,
            1,
        ),
{
    let n = grid(a.magnitude()) * pow2(149);
    let d = grid(b.magnitude());
    lemma2_to64();
    assert(grid(0) == 0);
    lemma_rounding_error(n, d);
    lemma_parts_of(a.negative(), nearest(n, d));
    reveal(quotient);
}

/// Nearness holds the other way round, with little more.
pub proof fn lemma_near_back(a: int, b: int, k: int)
    requires
        near(a, b, k),
        0 <= k <= 0x800,
        a >= 0,
        b >= 0,
    ensures
        near(b, a, k + 1),
{
    assert(0x100_0000 * b <= (0x100_0000 + (k + 1)) * a) by (nonlinear_arith)
        requires
            (0x100_0000 - k) * b <= 0x100_0000 * a,
            0 <= k <= 0x800,
            b >= 0,
    {
        assert((0x100_0000 + (k + 1)) * ((0x100_0000 - k) * b) <= (0x100_0000 + (k + 1)) * (
        0x100_0000 * a));
        assert((0x100_0000 + (k + 1)) * (0x100_0000 - k) >= 0x100_0000 * 0x100_0000);
        assert(((0x100_0000 + (k + 1)) * (0x100_0000 - k)) * b >= (0x100_0000 * 0x100_0000) * b);
    }
    assert((0x100_0000 - (k + 1)) * a <= 0x100_0000 * b) by (nonlinear_arith)
        requires
            0x100_0000 * a <= (0x100_0000 + k) * b,
            0 <= k <= 0x800,
            b >= 0,
    {
        assert((0x100_0000 - (k + 1)) * (0x100_0000 * a) <= (0x100_0000 - (k + 1)) * ((0x100_0000
            + k) * b));
        assert((0x100_0000 - (k + 1)) * (0x100_0000 + k) <= 0x100_0000 * 0x100_0000);
        assert(((0x100_0000 - (k + 1)) * (0x100_0000 + k)) * b <= (0x100_0000 * 0x100_0000) * b);
    }
}

/// Whether a number is finite, has no sign, and lies from `2^-40` to `2^40`.
pub open spec fn is_moderate(sigma: F32) -> bool {
    &&& is_plain(sigma)
    &&& sigma.is_finite()
    &&& pow2(109) <= grid(sigma.magnitude()) <= pow2(189)
}

/// The divisor of the exponents is two times the square of sigma, but for the roundings.
pub proof fn lemma_divisor_error(sigma: F32)
    requires
        is_moderate(sigma),
    ensures
        ({
            let d = product(product(two(), sigma), sigma);
            let g = grid(sigma.magnitude()) as int;
            &&& is_plain(d)
            &&& d.is_finite()
            &&& pow2(68) <= grid(d.magnitude()) <= pow2(231)
            &&& near((grid(d.magnitude()) * pow2(149)) as int, 2 * (g * g), 3)
        }),
{
    let g = grid(sigma.magnitude());
    let unit = pow2(149);
    lemma_two_and_three();
    lemma_pow2_pos(149);
    lemma2_to64();
    lemma_pow2_adds(1, 149);
    lemma_pow2_adds(150, 109);
    lemma_pow2_adds(150, 189);
    lemma_pow2_strictly_increases(172, 259);
    lemma_pow2_strictly_increases(339, 425);
    assert(pow2(150) * pow2(109) <= (2 * unit) * g <= pow2(150) * pow2(189)) by (nonlinear_arith)
        requires
            pow2(109) <= g <= pow2(189),
            pow2(150) == 2 * unit,
    ;
    lemma_product_error(two(), sigma);
    let t = product(two(), sigma);
    let h = grid(t.magnitude());
    assert((2 * unit) * g == (2 * g) * unit) by (nonlinear_arith);
    lemma_near_cancel(h as int, 2 * g as int, unit as int, 1);
    assert(g <= h <= 4 * g);
    lemma_pow2_adds(109, 109);
    lemma_pow2_adds(189, 189);
    lemma_pow2_adds(2, 378);
    lemma_pow2_strictly_increases(172, 218);
    lemma_pow2_strictly_increases(380, 425);
    assert(pow2(109) * pow2(109) <= h * g <= 4 * (pow2(189) * pow2(189))) by (nonlinear_arith)
        requires
            pow2(109) <= g <= pow2(189),
            g <= h <= 4 * g,
    ;
    lemma_product_error(t, sigma);
    let d = grid(product(t, sigma).magnitude());
    lemma_near_scale(h as int, 2 * g as int, g as int, 1);
    assert((2 * g) * g == 2 * (g * g)) by (nonlinear_arith);
    assert(g * g >= 0) by (nonlinear_arith);
    lemma_near_trans((d * unit) as int, (h * g) as int, 2 * (g * g) as int, 1, 1);
    let du = d * unit;
    let hg = h * g;
    assert(2 * du >= hg && du <= 2 * hg);
    lemma_pow2_adds(69, 149);
    lemma_pow2_adds(1, 68);
    lemma_pow2_adds(1, 380);
    lemma_pow2_adds(232, 149);
    assert(pow2(69) <= 2 * d) by (nonlinear_arith)
        requires
            2 * (d * unit) >= pow2(69) * unit,
            unit > 0,
    ;
    lemma_pow2_adds(231, 149);
    lemma_pow2_adds(1, 230);
    lemma_near_scale(2 * (g * g) as int, 2 * (g * g) as int, 1, 0);
    assert(g * g <= pow2(189) * pow2(189)) by (nonlinear_arith)
        requires
            g <= pow2(189),
    ;
    assert(du <= 4 * (g * g)) by (nonlinear_arith)
        requires
            0x100_0000 * du <= (0x100_0000 + 3) * (2 * (g * g)),
    ;
    assert(d <= pow2(231)) by (nonlinear_arith)
        requires
            d * unit <= pow2(231) * unit,
            unit > 0,
    ;
}

/// A quotient over the divisor of the exponents: multiplied by two times the square of sigma it
/// gives its numerator, but for the roundings.
pub proof fn lemma_over_divisor(top: F32, sigma: F32, square: int)
    requires
        is_moderate(sigma),
        top.is_finite(),
        1 <= square <= 0x100_0000_0000,
        near(grid(top.magnitude()) as int, square * pow2(149), 1),
    ensures
        ({
            let r = quotient(top, product(product(two(), sigma), sigma));
            let g = grid(sigma.magnitude()) as int;
            let unit = pow2(149) as int;
            &&& r.is_finite()
            &&& r.negative() == top.negative()
            &&& near(
                2 * (g * g) * grid(r.magnitude()),
                square * (unit * unit * unit),
                8,
            )
        }),
{
    let divisor = product(product(two(), sigma), sigma);
    let unit = pow2(149) as int;
    let g = grid(sigma.magnitude()) as int;
    let n = grid(top.magnitude()) as int;
    let d = grid(divisor.magnitude()) as int;
    lemma_divisor_error(sigma);
    lemma_pow2_pos(149);
    lemma_pow2_pos(68);
    lemma2_to64();
    lemma2_to64_rest();
    lemma_pow2_adds(231, 23);
    lemma_pow2_adds(149, 149);
    lemma_pow2_adds(1, 297);
    lemma_pow2_strictly_increases(254, 297);
    lemma_pow2_adds(68, 276);
    lemma_pow2_adds(40, 149);
    lemma_pow2_adds(1, 189);
    lemma_pow2_adds(190, 149);
    lemma_pow2_strictly_increases(339, 344);
    let su = square * unit;
    assert(unit <= su <= pow2(40) * unit) by (nonlinear_arith)
        requires
            1 <= square <= pow2(40),
            su == square * unit,
            unit > 0,
    ;
    assert(unit <= 2 * n && n <= 2 * su);
    assert(d * pow2(23) <= n * unit) by (nonlinear_arith)
        requires
            0 <= d <= pow2(231),
            unit <= 2 * n,
            unit * unit == 2 * pow2(297),
            pow2(231) * pow2(23) < pow2(297),
            unit > 0,
    ;
    assert(n * unit < d * pow2(276)) by (nonlinear_arith)
        requires
            d >= pow2(68),
            n <= pow2(190),
            pow2(190) * unit < pow2(68) * pow2(276),
            unit > 0,
    ;
    lemma_quotient_error(top, divisor);
    let r = quotient(top, divisor);
    let e = grid(r.magnitude()) as int;
    let a = 2 * (g * g);
    assert(a >= 0 && d * unit >= 0) by (nonlinear_arith)
        requires
            a == 2 * (g * g),
            d >= 0,
            unit > 0,
    ;
    lemma_near_back(d * unit, a, 3);
    lemma_near_scale(a, d * unit, e, 4);
    lemma_near_scale(e * d, n * unit, unit, 1);
    assert(d * unit * e == e * d * unit) by (nonlinear_arith);
    assert(n * unit * unit >= 0) by (nonlinear_arith)
        requires
            n >= 0,
            unit > 0,
    ;
    lemma_near_trans(a * e, e * d * unit, n * unit * unit, 4, 1);
    let uu = unit * unit;
    assert(uu > 0) by (nonlinear_arith)
        requires
            uu == unit * unit,
            unit > 0,
    ;
    lemma_near_scale(n, su, uu, 1);
    assert(n * unit * unit == n * uu) by (nonlinear_arith)
        requires
            uu == unit * unit,
    ;
    let want = square * (unit * unit * unit);
    assert(su * uu == want) by (nonlinear_arith)
        requires
            uu == unit * unit,
            su == square * unit,
            want == square * (unit * unit * unit),
    ;
    assert(want >= 0) by (nonlinear_arith)
        requires
            want == su * uu,
            su >= 0,
            uu > 0,
    ;
    lemma_near_trans(a * e, n * uu, want, 6, 1);
}

/// The exponent of the Gaussian function at the distance `x` from the middle of a kernel has the
/// value `-x^2 / (2 * sigma^2)`, but for a few roundings: multiplied by `-2 * sigma^2` it is
/// within eight parts in `2^24` of the square of the distance.
pub proof fn law_exponent_is_gaussian(radius: int, sigma: F32, i: int)
    requires
        is_moderate(sigma),
        0 <= i <= 2 * radius,
        radius < 0x10_0000,
    ensures
        ({
            let x = i - radius;
            let value = gaussian_exponent(radius, sigma, i);
            let g = grid(sigma.magnitude()) as int;
            let unit = pow2(149) as int;
            let want = x * x * (unit * unit * unit);
            let got = 2 * (g * g) * -value.scaled();
            &&& value.is_finite()
            &&& 0xff_fff8 * want <= 0x100_0000 * got <= 0x100_0008 * want
        }),
{
    let x = i - radius;
    let d = if x < 0 {
        -x
    } else {
        x
    };
    let unit = pow2(149) as int;
    lemma_pow2_pos(149);
    lemma_of_int_exact(d as nat);
    let n = distance(radius, i);
    let m = of_int(d).magnitude();
    assert(n == F32::of(x < 0, m)) by {
        reveal(of_int);
        lemma_nearest((d as nat) * pow2(149), 1);
        lemma_parts_of(false, nearest((d as nat) * pow2(149), 1));
    }
    lemma_parts_of(x < 0, m);
    lemma_parts_of(!(x < 0), m);
    let top = product(negated(n), n);
    let square = x * x;
    let g = grid(m) as int;
    assert(g * g == square * unit * unit) by (nonlinear_arith)
        requires
            g == d * unit,
            d == x || d == -x,
            square == x * x,
    ;
    assert(0 <= square <= 0x100_0000_0000 && (d >= 1 ==> square >= 1)) by (nonlinear_arith)
        requires
            square == x * x,
            d == x || d == -x,
            0 <= d <= 0x10_0000,
    ;
    let k = nearest((g * g) as nat, pow2(149));
    assert(top == F32::of(true, k)) by {
        reveal(product);
    }
    lemma2_to64();
    lemma2_to64_rest();
    lemma_pow2_adds(149, 23);
    lemma_pow2_adds(149, 149);
    lemma_pow2_adds(40, 149);
    lemma_pow2_strictly_increases(172, 298);
    lemma_pow2_strictly_increases(189, 276);
    assert(0 <= square * unit <= 0x100_0000_0000 * unit) by (nonlinear_arith)
        requires
            0 <= square <= 0x100_0000_0000,
            unit > 0,
    ;
    if d == 0 {
        assert(square * unit * unit == 0) by (nonlinear_arith)
            requires
                square == x * x,
                x == 0,
        ;
        assert(grid(0) == 0 && 0 * pow2(149) == 0);
        lemma_nearest_exact(0, pow2(149));
        lemma_parts_of(true, 0);
        lemma_divisor_error(sigma);
        let divisor = product(product(two(), sigma), sigma);
        lemma_pow2_pos(68);
        lemma_nearest_exact(0, grid(divisor.magnitude()));
        assert(0 * grid(divisor.magnitude()) == 0);
        assert(gaussian_exponent(radius, sigma, i) == F32::of(true, 0)) by {
            reveal(quotient);
        }
        let s = grid(sigma.magnitude()) as int;
        assert(2 * (s * s) * 0 == 0);
        assert(x * x * (unit * unit * unit) == 0) by (nonlinear_arith)
            requires
                x == 0,
        ;
    } else {
        let su = square * unit;
        lemma_pow2_strictly_increases(23, 149);
        assert(unit <= su) by (nonlinear_arith)
            requires
                su == square * unit,
                square >= 1,
                unit > 0,
        ;
        assert(unit * 0x80_0000 <= su * unit < unit * pow2(276)) by (nonlinear_arith)
            requires
                0x80_0000 <= unit,
                unit <= su < pow2(276),
        {
            assert(unit * unit <= su * unit);
            assert(unit * 0x80_0000 <= unit * unit);
        }
        lemma_rounding_error((g * g) as nat, pow2(149));
        lemma_parts_of(true, k);
        lemma_near_cancel(grid(k) as int, su, unit, 1);
        lemma_over_divisor(top, sigma, square);
    }
}

/// The sum of the values of a kernel, and how it compares with the value at one weight.
proof fn lemma_total_of_values(sigma: F32, exponentials: Seq<F32>, i: int)
    requires
        is_moderate(sigma),
        exponentials.len() <= MAX_BOUNDED_WEIGHTS,
        are_plain(exponentials),
        forall|j: int|
            0 <= j < exponentials.len() ==> grid((#[trigger] exponentials[j]).magnitude()) <= pow2(
                149,
            ),
        0 <= i < exponentials.len(),
        grid(exponentials[i].magnitude()) >= pow2(89),
    ensures
        ({
            let values = gaussian_values(sigma, exponentials);
            let total = running_sum(values, values.len());
            let v = grid(values[i].magnitude()) as int;
            let c = grid(product(root(product(two(), pi())), sigma).magnitude()) as int;
            let r = grid(total.magnitude()) as int;
            &&& is_plain(values[i])
            &&& values[i].is_finite()
            &&& is_plain(total)
            &&& total.is_finite()
            &&& pow2(23) <= r <= pow2(272)
            &&& c > 0
            &&& near(v * c, grid(exponentials[i].magnitude()) * pow2(149) as int, 1)
            &&& v <= 2 * r
            &&& pow2(174) * r <= v * (pow2(149) * pow2(149))
        }),
{
    let values = gaussian_values(sigma, exponentials);
    let n = values.len();
    let divisor = product(root(product(two(), pi())), sigma);
    lemma_gaussian_divisor(sigma);
    let c = grid(divisor.magnitude()) as int;
    let unit = pow2(149) as int;
    let uu = unit * unit;
    let e = grid(exponentials[i].magnitude()) as int;
    let v = grid(values[i].magnitude()) as int;
    lemma2_to64();
    lemma_pow2_pos(108);
    lemma_pow2_pos(149);
    lemma_pow2_adds(149, 149);
    lemma_pow2_adds(89, 149);
    lemma_pow2_adds(192, 23);
    lemma_pow2_adds(108, 276);
    lemma_pow2_strictly_increases(215, 238);
    lemma_pow2_strictly_increases(298, 384);
    assert(c * pow2(23) <= e * unit) by (nonlinear_arith)
        requires
            c <= pow2(192),
            e >= pow2(89),
            pow2(192) * pow2(23) <= pow2(89) * unit,
            unit > 0,
    ;
    assert(e * unit < c * pow2(276)) by (nonlinear_arith)
        requires
            c >= pow2(108),
            e <= unit,
            unit * unit < pow2(108) * pow2(276),
            unit > 0,
    ;
    lemma_quotient_error(exponentials[i], divisor);
    let most = 3 * uu / c;
    vstd::arithmetic::div_mod::lemma_fundamental_div_mod(3 * uu, c);
    assert(most >= 0 && most * c <= 3 * uu) by (nonlinear_arith)
        requires
            3 * uu == c * most + (3 * uu) % c,
            0 <= (3 * uu) % c < c,
            uu >= 0,
            c > 0,
    ;
    assert forall|j: int| 0 <= j < n implies is_plain(#[trigger] values[j])
        && values[j].is_finite() && grid(values[j].magnitude()) <= most && grid(
        values[j].magnitude(),
    ) <= pow2(192) by {
        lemma_gaussian_value(sigma, exponentials[j]);
        lemma_gaussian_value_bound(exponentials[j], divisor, uu);
        let w = grid(values[j].magnitude()) as int;
        assert(w <= most) by (nonlinear_arith)
            requires
                w * c <= 3 * uu,
                3 * uu == c * most + (3 * uu) % c,
                (3 * uu) % c < c,
                c > 0,
        ;
    }
    lemma_exact_sum_bounds(values, n, i, most as nat);
    lemma_exact_sum_bounds(values, n, i, pow2(192));
    let t = exact_sum(values, n) as int;
    lemma_pow2_adds(192, 20);
    lemma_pow2_strictly_increases(212, 270);
    lemma_pow2_adds(1, 212);
    lemma_pow2_strictly_increases(213, 272);
    assert(n * pow2(192) <= 0x10_0000 * pow2(192)) by (nonlinear_arith)
        requires
            n <= 0x10_0000,
    ;
    lemma_running_sum_error(values, n);
    let r = grid(running_sum(values, n).magnitude()) as int;
    assert(r <= 2 * t && t <= 2 * r) by (nonlinear_arith)
        requires
            (0x100_0000 - 2 * n) * t <= 0x100_0000 * r <= (0x100_0000 + 2 * n) * t,
            0 < n <= 0x10_0000,
            t >= 0,
    ;
    let vc = v * c;
    let eu = e * unit;
    assert(eu <= 2 * vc);
    assert(pow2(89) * unit <= eu) by (nonlinear_arith)
        requires
            eu == e * unit,
            e >= pow2(89),
            unit > 0,
    ;
    // The value is not small.
    lemma_pow2_adds(192, 46);
    lemma_pow2_adds(1, 45);
    lemma_pow2_strictly_increases(24, 45);
    lemma_pow2_adds(1, 23);
    assert(pow2(46) <= 2 * v) by (nonlinear_arith)
        requires
            pow2(192) * pow2(46) <= 2 * (v * c),
            0 < c <= pow2(192),
            v >= 0,
    ;
    // Nor is it among all values.
    assert(t * c <= 0x10_0000 * (3 * uu)) by (nonlinear_arith)
        requires
            t <= n * most,
            n <= 0x10_0000,
            most >= 0,
            most * c <= 3 * uu,
            c > 0,
    {
        assert(t * c <= (n * most) * c);
        assert((n * most) * c == n * (most * c));
        assert(n * (most * c) <= 0x10_0000 * (most * c));
    }
    lemma_pow2_adds(174, 23);
    lemma_pow2_adds(1, 237);
    lemma_pow2_strictly_increases(197, 237);
    assert(r * c <= pow2(23) * uu) by (nonlinear_arith)
        requires
            r <= 2 * t,
            t * c <= 0x10_0000 * (3 * uu),
            pow2(23) == 0x80_0000,
            uu >= 0,
            c > 0,
    {
        assert(r * c <= 2 * (t * c));
    }
    assert((pow2(174) * r) * c <= (v * uu) * c) by (nonlinear_arith)
        requires
            r * c <= pow2(23) * uu,
            pow2(174) * pow2(23) <= v * c,
            uu >= 0,
    {
        assert(pow2(174) * (r * c) <= pow2(174) * (pow2(23) * uu));
        assert((pow2(174) * pow2(23)) * uu <= (v * c) * uu);
    }
    assert(pow2(174) * r <= v * uu) by (nonlinear_arith)
        requires
            (pow2(174) * r) * c <= (v * uu) * c,
            c > 0,
    ;
}

/// A value of the Gaussian function, multiplied by its divisor, is not much above one.
proof fn lemma_gaussian_value_bound(e: F32, divisor: F32, uu: int)
    requires
        is_plain(e),
        e.is_finite(),
        grid(e.magnitude()) <= pow2(149),
        is_plain(divisor),
        divisor.is_finite(),
        pow2(108) <= grid(divisor.magnitude()) <= pow2(192),
        uu == pow2(149) * pow2(149),
    ensures
        grid(quotient(e, divisor).magnitude()) * grid(divisor.magnitude()) <= 3 * uu,
{
    let g = grid(e.magnitude());
    let d = grid(divisor.magnitude());
    let unit = pow2(149);
    lemma_pow2_pos(108);
    lemma_pow2_adds(149, 149);
    lemma_pow2_adds(108, 276);
    lemma_pow2_strictly_increases(298, 384);
    lemma_pow2_strictly_increases(192, 298);
    assert(g * unit <= unit * unit) by (nonlinear_arith)
        requires
            g <= unit,
    ;
    assert(pow2(108) * pow2(276) <= d * pow2(276)) by (nonlinear_arith)
        requires
            pow2(108) <= d,
    ;
    lemma_small_rounding_error(g * unit, d);
    assert(grid(0) == 0);
    let m = nearest(g * unit, d);
    assert(quotient(e, divisor) == F32::of(false, m)) by {
        reveal(quotient);
    }
    lemma_parts_of(false, m);
    let w = grid(m) * d;
    assert(0x100_0000 * w <= 0x100_0001 * uu + 0x80_0000 * d);
}

/// One weight of a kernel, by its exponential, with the roundings.
proof fn lemma_weight_of(sigma: F32, exponentials: Seq<F32>, i: int)
    requires
        is_moderate(sigma),
        exponentials.len() <= MAX_BOUNDED_WEIGHTS,
        are_plain(exponentials),
        forall|j: int|
            0 <= j < exponentials.len() ==> grid((#[trigger] exponentials[j]).magnitude()) <= pow2(
                149,
            ),
        0 <= i < exponentials.len(),
        grid(exponentials[i].magnitude()) >= pow2(89),
    ensures
        ({
            let values = gaussian_values(sigma, exponentials);
            let w = grid(gaussian_weights(sigma, exponentials)[i].magnitude()) as int;
            let e = grid(exponentials[i].magnitude()) as int;
            let c = grid(product(root(product(two(), pi())), sigma).magnitude()) as int;
            let inverse = quotient(one(), running_sum(values, values.len()));
            &&& c > 0
            &&& near(w * c, e * grid(inverse.magnitude()), 3)
        }),
{
    lemma_total_of_values(sigma, exponentials, i);
    let values = gaussian_values(sigma, exponentials);
    let total = running_sum(values, values.len());
    let v = grid(values[i].magnitude()) as int;
    let e = grid(exponentials[i].magnitude()) as int;
    let c = grid(product(root(product(two(), pi())), sigma).magnitude()) as int;
    let r = grid(total.magnitude()) as int;
    let unit = pow2(149) as int;
    let uu = unit * unit;
    lemma2_to64();
    lemma_pow2_pos(149);
    lemma_pow2_pos(23);
    lemma_inverse(total);
    let inverse = quotient(one(), total);
    let q = grid(inverse.magnitude()) as int;
    let qr = q * r;
    lemma_pow2_adds(149, 149);
    assert(uu <= 2 * qr && qr <= 2 * uu);
    lemma_pow2_adds(1, 298);
    lemma_pow2_adds(1, 299);
    lemma_pow2_strictly_increases(300, 425);
    assert(v * q < pow2(425)) by (nonlinear_arith)
        requires
            v <= 2 * r,
            q * r <= 2 * uu,
            4 * uu < pow2(425),
            q >= 0,
    {
        assert(v * q <= (2 * r) * q);
    }
    lemma_pow2_adds(1, 173);
    lemma_pow2_adds(1, 172);
    assert(pow2(172) <= v * q) by (nonlinear_arith)
        requires
            pow2(174) * r <= v * uu,
            uu <= 2 * (q * r),
            pow2(174) == 4 * pow2(172),
            r > 0,
            v >= 0,
    {
        assert(v * uu <= v * (2 * (q * r)));
        assert((4 * pow2(172)) * r <= (2 * (v * q)) * r);
    }
    lemma_product_error(values[i], inverse);
    let w = grid(gaussian_weights(sigma, exponentials)[i].magnitude()) as int;
    assert(near(w * unit, v * q, 1));
    lemma_near_scale(w * unit, v * q, c, 1);
    lemma_near_scale(v * c, e * unit, q, 1);
    assert(v * q * c == v * c * q && w * unit * c == w * c * unit && e * unit * q == e * q * unit)
        by (nonlinear_arith);
    assert(e * q * unit >= 0) by (nonlinear_arith)
        requires
            e >= 0,
            q >= 0,
            unit > 0,
    ;
    lemma_near_trans(w * c * unit, v * c * q, e * q * unit, 1, 1);
    lemma_near_cancel(w * c, e * q, unit, 3);
}

/// What is near a multiple of two numbers each stands in their proportion.
pub proof fn lemma_in_proportion(v: int, w: int, d: int, e: int, c: int, q: int, k: int)
    requires
        near(v * c, d * q, k),
        near(w * c, e * q, k),
        0 <= k <= 0x800,
        c > 0,
        v >= 0,
        w >= 0,
        d >= 0,
        e >= 0,
        q >= 0,
    ensures
        near(v * e, w * d, 2 * k + 2),
{
    lemma_near_scale(v * c, d * q, e, k);
    lemma_near_scale(w * c, e * q, d, k);
    assert(d * q * e == e * q * d && v * c * e == v * e * c && w * c * d == w * d * c)
        by (nonlinear_arith);
    assert(w * d * c >= 0 && e * q * d >= 0) by (nonlinear_arith)
        requires
            w >= 0,
            d >= 0,
            c > 0,
            e >= 0,
            q >= 0,
    ;
    lemma_near_back(w * d * c, e * q * d, k);
    assert(k * (k + 1) <= 0x100_0000) by (nonlinear_arith)
        requires
            0 <= k <= 0x800,
    ;
    lemma_near_trans(v * e * c, e * q * d, w * d * c, k, k + 1);
    lemma_near_cancel(v * e, w * d, c, 2 * k + 2);
}

/// The weights of a kernel stand in the proportion of the exponentials of their exponents, but
/// for a few roundings, for exponentials of at least `2^-60`.
pub proof fn law_weights_are_in_proportion(
    sigma: F32,
    exponentials: Seq<F32>,
    i: int,
    j: int,
)
    requires
        is_moderate(sigma),
        exponentials.len() <= MAX_BOUNDED_WEIGHTS,
        are_plain(exponentials),
        forall|k: int|
            0 <= k < exponentials.len() ==> grid((#[trigger] exponentials[k]).magnitude()) <= pow2(
                149,
            ),
        0 <= i < exponentials.len(),
        0 <= j < exponentials.len(),
        grid(exponentials[i].magnitude()) >= pow2(89),
        grid(exponentials[j].magnitude()) >= pow2(89),
    ensures
        ({
            let weights = gaussian_weights(sigma, exponentials);
            let got = grid(weights[i].magnitude()) * grid(exponentials[j].magnitude());
            let want = grid(weights[j].magnitude()) * grid(exponentials[i].magnitude());
            0xff_fff8 * want <= 0x100_0000 * got <= 0x100_0008 * want
        }),
{
    let values = gaussian_values(sigma, exponentials);
    let inverse = quotient(one(), running_sum(values, values.len()));
    let weights = gaussian_weights(sigma, exponentials);
    lemma_weight_of(sigma, exponentials, i);
    lemma_weight_of(sigma, exponentials, j);
    lemma_in_proportion(
        grid(weights[i].magnitude()) as int,
        grid(weights[j].magnitude()) as int,
        grid(exponentials[i].magnitude()) as int,
        grid(exponentials[j].magnitude()) as int,
        grid(product(root(product(two(), pi())), sigma).magnitude()) as int,
        grid(inverse.magnitude()) as int,
        3,
    );
}

/// Whether a number is the exponential of `-x^2 / (2 * sigma^2)`, where the argument may be off by
/// a few roundings.
pub open spec fn is_exponential_at<E: Fn(F32) -> F32>(exp: E, sigma: F32, x: int, e: F32) -> bool {
    exists|value: F32|
        #[trigger] call_ensures(exp, (value,), e) && value.is_finite() && {
            let g = grid(sigma.magnitude()) as int;
            let unit = pow2(149) as int;
            let want = x * x * (unit * unit * unit);
            let got = 2 * (g * g) * -value.scaled();
            0xff_fff8 * want <= 0x100_0000 * got <= 0x100_0008 * want
        }
}

/// Whether numbers are the exponentials at the distances from `-radius` to `radius`.
pub open spec fn are_exponentials_at<E: Fn(F32) -> F32>(
    exp: E,
    sigma: F32,
    radius: int,
    exponentials: Seq<F32>,
) -> bool {
    &&& exponentials.len() == 2 * radius + 1
    &&& forall|i: int|
        0 <= i <= 2 * radius ==> is_exponential_at(
            exp,
            sigma,
            i - radius,
            #[trigger] exponentials[i],
        )
}

/// Whether the first weights stand in the proportion of exponentials, but for a few roundings, for
/// exponentials of at least `2^-60`.
pub open spec fn are_in_proportion(weights: Seq<F32>, exponentials: Seq<F32>) -> bool {
    forall|i: int, j: int|
        0 <= i < exponentials.len() && 0 <= j < exponentials.len() && grid(
            (#[trigger] exponentials[i]).magnitude(),
        ) >= pow2(89) && grid((#[trigger] exponentials[j]).magnitude()) >= pow2(89) ==> {
            let got = grid(weights[i].magnitude()) * grid(exponentials[j].magnitude());
            let want = grid(weights[j].magnitude()) * grid(exponentials[i].magnitude());
            0xff_fff8 * want <= 0x100_0000 * got <= 0x100_0008 * want
        }
}

/// What makes weights Gaussian: there is an odd number of them, they add up to one, and each stands
/// for the exponential of `-x^2 / (2 * sigma^2)` at its distance from the middle, but for the
/// roundings, where the exponential function falls from one at zero.
pub proof fn law_weights_are_gaussian<E: Fn(F32) -> F32>(
    exp: E,
    radius: int,
    sigma: F32,
    weights: Seq<F32>,
)
    requires
        is_gaussian(exp, radius, sigma, weights),
        decays(exp),
        is_moderate(sigma),
        0 <= radius,
        2 * radius + 1 <= MAX_BOUNDED_WEIGHTS,
    ensures
        weights.len() == 2 * radius + 1,
        are_normalized(weights),
        exists|exponentials: Seq<F32>| #[trigger]
            are_exponentials_at(exp, sigma, radius, exponentials) && are_in_proportion(
                weights,
                exponentials,
            ),
{
    law_kernel_from_exponentials_is_normalized(exp, radius, sigma, weights);
    let exponentials = choose|exponentials: Seq<F32>| #[trigger]
        are_exponentials(exp, radius, sigma, exponentials) && weights == gaussian_weights(
            sigma,
            exponentials,
        );
    assert forall|i: int| 0 <= i <= 2 * radius implies is_exponential_at(
        exp,
        sigma,
        i - radius,
        #[trigger] exponentials[i],
    ) && is_plain(exponentials[i]) && exponentials[i].is_finite() && grid(
        exponentials[i].magnitude(),
    ) <= pow2(149) by {
        law_exponent_is_gaussian(radius, sigma, i);
        lemma_exponent(radius, sigma, i);
        assert(call_ensures(exp, (gaussian_exponent(radius, sigma, i),), exponentials[i]));
    }
    assert(are_exponentials_at(exp, sigma, radius, exponentials));
    assert forall|i: int, j: int|
        0 <= i < exponentials.len() && 0 <= j < exponentials.len() && grid(
            (#[trigger] exponentials[i]).magnitude(),
        ) >= pow2(89) && grid((#[trigger] exponentials[j]).magnitude()) >= pow2(89) implies {
        let got = grid(weights[i].magnitude()) * grid(exponentials[j].magnitude());
        let want = grid(weights[j].magnitude()) * grid(exponentials[i].magnitude());
        0xff_fff8 * want <= 0x100_0000 * got <= 0x100_0008 * want
    } by {
        law_weights_are_in_proportion(sigma, exponentials, i, j);
    }
}

/// The weights of a new kernel, and those of a new processor, are Gaussian for the sigma and the
/// radius that they were made with.
pub proof fn law_new_kernels_are_gaussian<E: Fn(F32) -> F32>(
    exp: &E,
    sigma: F32,
    radius: i32,
    blur_alpha: bool,
    kernel: GaussianKernel,
    blur: GaussianBlur,
)
    requires
        call_ensures(GaussianKernel::new::<E>, (sigma, Some(radius), exp), kernel),
        call_ensures(GaussianBlur::new::<E>, (sigma, Some(radius), blur_alpha, exp), blur),
        decays(*exp),
        is_moderate(sigma),
        0 <= radius,
        2 * radius + 1 <= MAX_BOUNDED_WEIGHTS,
    ensures
        forall|weights: Seq<F32>|
            weights == kernel.weights() || weights == blur.weights() ==> {
                &&& weights.len() == 2 * radius + 1
                &&& #[trigger] are_normalized(weights)
                &&& exists|exponentials: Seq<F32>| #[trigger]
                    are_exponentials_at(*exp, sigma, radius as int, exponentials)
                        && are_in_proportion(weights, exponentials)
            },
{
    law_weights_are_gaussian(*exp, radius as int, sigma, kernel.weights());
    law_weights_are_gaussian(*exp, radius as int, sigma, blur.weights());
}

} // verus!
