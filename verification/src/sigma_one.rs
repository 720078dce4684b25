//! What the blur with a sigma of one does to a colour of full strength, bit by bit.

use crate::float::arith::{product, quotient, root, sum};
use crate::float::convert::{byte_of, ceiling_i32};
use crate::float::cut::{lemma_cut_keeps, lemma_floored_unique, product_cut, sum_cut};
use crate::float::numbers::{one, pi, three, two, zero};
use crate::float::order::{is_plain, lemma_of_int_is, lemma_product_of_ints, lemma_zero_and_one};
use crate::float::repr::{grid, lemma_grid_increases, lemma_grid_split, F32};
use crate::float::round::{
    is_nearest, lemma_nearest_exact, lemma_nearest_root_unique, lemma_nearest_unique,
};
use crate::kernel::{
    are_exponentials, effective_radius, gaussian_exponent, gaussian_values, gaussian_weights,
    is_gaussian,
};
use crate::laws::law_absent_colour_stays_absent;
use crate::pixel::{channel, Pixel};
use crate::sampling::{running_sum, tap, weighted_sum_cut};
use crate::separable::{across, blurred, column_samples, row_samples};
use vstd::arithmetic::power2::{
    lemma2_to64, lemma_pow2_adds, lemma_pow2_pos, lemma_pow2_unfold, pow2,
};
use vstd::prelude::*;

verus! {

/// The number with the significand `s` and the exponent `e`.
spec fn number(s: nat, e: nat) -> F32 {
    F32 { bits: (e * 0x80_0000 + s) as u32 }
}

/// Whether a significand and an exponent belong to a normal number.
spec fn is_normal(s: nat, e: nat) -> bool {
    0x80_0000 <= s < 0x100_0000 && e <= 253
}

/// The value of a number and its neighbours.
proof fn lemma_number(s: nat, e: nat)
    requires
        is_normal(s, e),
    ensures
        is_plain(number(s, e)),
        number(s, e).is_finite(),
        number(s, e).magnitude() == e * 0x80_0000 + s,
        number(s, e) == F32::of(false, e * 0x80_0000 + s),
        grid(e * 0x80_0000 + s) == s * pow2(e),
        grid(e * 0x80_0000 + s + 1) == (s + 1) * pow2(e),
        s > 0x80_0000 ==> grid((e * 0x80_0000 + s - 1) as nat) == (s - 1) * pow2(e),
        s == 0x80_0000 && e > 0 ==> grid((e * 0x80_0000 + s - 1) as nat) == 0xff_ffff * pow2(
            (e - 1) as nat,
        ),
        pow2(e) > 0,
        s * pow2(e) > 0,
{
    lemma_grid_split(s, e);
    lemma_pow2_pos(e);
    assert(s * pow2(e) > 0) by (nonlinear_arith)
        requires
            s > 0,
            pow2(e) > 0,
    ;
    if s > 0x80_0000 {
        lemma_grid_split((s - 1) as nat, e);
    } else if e > 0 {
        lemma_grid_split(0xff_ffff, (e - 1) as nat);
    }
}

/// A product that is rounded.
proof fn lemma_product_rounds(sa: nat, ea: nat, sb: nat, eb: nat, s: nat, e: nat, shift: nat)
    requires
        is_normal(sa, ea),
        is_normal(sb, eb),
        is_normal(s, e),
        s > 0x80_0000,
        ea + eb + shift == e + 149,
        (2 * s - 1) * pow2(shift) < 2 * (sa * sb) < (2 * s + 1) * pow2(shift),
    ensures
        product(number(sa, ea), number(sb, eb)) == number(s, e),
{
    lemma_number(sa, ea);
    lemma_number(sb, eb);
    lemma_number(s, e);
    lemma_pow2_adds(ea, eb);
    lemma_pow2_adds(ea + eb, shift);
    lemma_pow2_adds(e, 149);
    lemma_pow2_pos(ea + eb);
    lemma_pow2_pos(149);
    let (a, b, p, q, u) = (pow2(ea), pow2(eb), pow2(shift), pow2(e), pow2(149));
    let ab = a * b;
    let n = (sa * a) * (sb * b);
    let x = sa * sb;
    assert(n == x * ab) by (nonlinear_arith)
        requires
            n == (sa * a) * (sb * b),
            ab == a * b,
            x == sa * sb,
    ;
    assert(2 * n < u * (s * q + (s + 1) * q) && 2 * n > u * ((s - 1) * q + s * q))
        by (nonlinear_arith)
        requires
            n == x * ab,
            ab * p == q * u,
            (2 * s - 1) * p < 2 * x < (2 * s + 1) * p,
            ab > 0,
    {
        assert((2 * x) * ab < ((2 * s + 1) * p) * ab);
        assert(((2 * s - 1) * p) * ab < (2 * x) * ab);
        assert(((2 * s + 1) * p) * ab == (2 * s + 1) * (q * u));
        assert(((2 * s - 1) * p) * ab == (2 * s - 1) * (q * u));
    }
    lemma_nearest_unique(n, u, e * 0x80_0000 + s);
    reveal(product);
}

/// A quotient that is rounded.
proof fn lemma_quotient_rounds(sa: nat, ea: nat, sb: nat, eb: nat, s: nat, e: nat, shift: nat)
    requires
        is_normal(sa, ea),
        is_normal(sb, eb),
        is_normal(s, e),
        s > 0x80_0000,
        ea + 149 == eb + e + shift,
        (2 * s - 1) * sb < 2 * (sa * pow2(shift)) < (2 * s + 1) * sb,
    ensures
        quotient(number(sa, ea), number(sb, eb)) == number(s, e),
{
    lemma_number(sa, ea);
    lemma_number(sb, eb);
    lemma_number(s, e);
    lemma_pow2_adds(ea, 149);
    lemma_pow2_adds(eb, e);
    lemma_pow2_adds(eb + e, shift);
    lemma_pow2_pos(eb + e);
    let (a, b, p, q, u) = (pow2(ea), pow2(eb), pow2(shift), pow2(e), pow2(149));
    let bq = b * q;
    let n = (sa * a) * u;
    let d = sb * b;
    let x = sa * p;
    assert(n == x * bq) by (nonlinear_arith)
        requires
            n == (sa * a) * u,
            x == sa * p,
            a * u == bq * p,
    ;
    assert(2 * n < d * (s * q + (s + 1) * q) && 2 * n > d * ((s - 1) * q + s * q))
        by (nonlinear_arith)
        requires
            n == x * bq,
            d == sb * b,
            bq == b * q,
            (2 * s - 1) * sb < 2 * x < (2 * s + 1) * sb,
            bq > 0,
    {
        assert((2 * x) * bq < ((2 * s + 1) * sb) * bq);
        assert(((2 * s - 1) * sb) * bq < (2 * x) * bq);
        assert(((2 * s + 1) * sb) * bq == d * ((2 * s + 1) * q));
        assert(((2 * s - 1) * sb) * bq == d * ((2 * s - 1) * q));
    }
    lemma_nearest_unique(n, d, e * 0x80_0000 + s);
    reveal(quotient);
}

/// A square root that is rounded.
proof fn lemma_root_rounds(sa: nat, ea: nat, s: nat, e: nat, shift: nat, low: nat, high: nat)
    requires
        is_normal(sa, ea),
        is_normal(s, e),
        s > 0x80_0000,
        ea + 149 == e + e + shift,
        low == 2 * s - 1,
        high == 2 * s + 1,
        low * low < 4 * (sa * pow2(shift)) < high * high,
    ensures
        root(number(sa, ea)) == number(s, e),
{
    lemma_number(sa, ea);
    lemma_number(s, e);
    lemma_pow2_adds(ea, 149);
    lemma_pow2_adds(e, e);
    lemma_pow2_adds(e + e, shift);
    lemma_pow2_pos(e + e);
    let (a, p, q, u) = (pow2(ea), pow2(shift), pow2(e), pow2(149));
    let qq = q * q;
    let n = (sa * a) * u;
    let x = sa * p;
    assert(n == x * qq) by (nonlinear_arith)
        requires
            n == (sa * a) * u,
            x == sa * p,
            a * u == qq * p,
    ;
    let (below, above) = ((s - 1) * q + s * q, s * q + (s + 1) * q);
    assert(below == low * q && above == high * q) by (nonlinear_arith)
        requires
            below == (s - 1) * q + s * q,
            above == s * q + (s + 1) * q,
            low == 2 * s - 1,
            high == 2 * s + 1,
    ;
    assert(4 * n < above * above && 4 * n > below * below) by (nonlinear_arith)
        requires
            n == x * qq,
            qq == q * q,
            below == low * q,
            above == high * q,
            low * low < 4 * x < high * high,
            qq > 0,
    {
        assert((4 * x) * qq < (high * high) * qq);
        assert((low * low) * qq < (4 * x) * qq);
        assert((high * high) * qq == above * above);
        assert((low * low) * qq == below * below);
    }
    lemma_nearest_root_unique(n, e * 0x80_0000 + s);
    reveal(root);
}

/// The exact sum of two numbers, and the value of a third, over a common power of two. The powers
/// `pa`, `pb` and `pr` are those of the distances `da`, `db` and `dr` of the exponents from it.
spec fn is_aligned(base: nat, da: nat, pa: nat, db: nat, pb: nat, dr: nat, pr: nat) -> bool {
    &&& pa == pow2(da)
    &&& pb == pow2(db)
    &&& pr == pow2(dr)
    &&& base + da <= 253
    &&& base + db <= 253
    &&& base + dr <= 253
}

proof fn lemma_aligned(
    sa: nat,
    sb: nat,
    base: nat,
    da: nat,
    pa: nat,
    db: nat,
    pb: nat,
    dr: nat,
    pr: nat,
)
    requires
        is_aligned(base, da, pa, db, pb, dr, pr),
    ensures
        sa * pow2(base + da) + sb * pow2(base + db) == (sa * pa + sb * pb) * pow2(base),
        pow2(base + dr) == pr * pow2(base),
        pow2(base) > 0,
{
    lemma_pow2_adds(da, base);
    lemma_pow2_adds(db, base);
    lemma_pow2_adds(dr, base);
    lemma_pow2_pos(base);
    let p = pow2(base);
    assert(sa * (pa * p) + sb * (pb * p) == (sa * pa + sb * pb) * p) by (nonlinear_arith);
}

/// The values of a number and its neighbours, added up, over a common power of two.
proof fn lemma_midpoints(s: nat, r: nat, p: nat, q: nat)
    requires
        q == r * p,
        s > 0,
    ensures
        ((2 * s + 1) * r) * p == s * q + (s + 1) * q,
        ((2 * s - 1) * r) * p == (s - 1) * q + s * q,
        ((4 * s - 1) * r) * p == (2 * s - 1) * q + (2 * s) * q,
{
    assert(((2 * s + 1) * r) * p == (2 * s + 1) * (r * p)) by (nonlinear_arith);
    assert(((2 * s - 1) * r) * p == (2 * s - 1) * (r * p)) by (nonlinear_arith);
    assert(((4 * s - 1) * r) * p == (4 * s - 1) * (r * p)) by (nonlinear_arith);
    assert((2 * s + 1) * q == s * q + (s + 1) * q) by (nonlinear_arith);
    assert((2 * s - 1) * q == (s - 1) * q + s * q) by (nonlinear_arith);
    assert((4 * s - 1) * q == (2 * s - 1) * q + (2 * s) * q) by (nonlinear_arith);
}

/// Multiplying by a positive number keeps the order.
proof fn lemma_scaled_order(a: int, b: int, p: int)
    requires
        p > 0,
    ensures
        a < b ==> a * p < b * p,
        a <= b ==> a * p <= b * p,
{
    assert((a < b ==> a * p < b * p) && (a <= b ==> a * p <= b * p)) by (nonlinear_arith)
        requires
            p > 0,
    ;
}

/// What `x` rounds to, over a common power of two.
proof fn lemma_sum_is_nearest(x: nat, s: nat, base: nat, dr: nat, pr: nat)
    requires
        is_normal(s, base + dr),
        pr == pow2(dr),
        base + dr > 0,
        2 * x < (2 * s + 1) * pr || s % 2 == 0 && 2 * x == (2 * s + 1) * pr,
        s > 0x80_0000 ==> (2 * s - 1) * pr < 2 * x || s % 2 == 0 && (2 * s - 1) * pr == 2 * x,
        s == 0x80_0000 ==> (4 * s - 1) * pr <= 4 * x,
    ensures
        is_nearest(x * pow2(base), 1, (base + dr) * 0x80_0000 + s),
{
    let e = base + dr;
    let (q, p) = (pow2(e), pow2(base));
    let m = e * 0x80_0000 + s;
    lemma_number(s, e);
    lemma_pow2_adds(dr, base);
    lemma_pow2_pos(base);
    lemma_midpoints(s, pr, p, q);
    let n = x * p;
    assert((2 * x) * p == 2 * n && (4 * x) * p == 4 * n) by (nonlinear_arith)
        requires
            n == x * p,
    ;
    let (two_x, four_x) = (2 * x as int, 4 * x as int);
    lemma_scaled_order(two_x, ((2 * s + 1) * pr) as int, p as int);
    lemma_scaled_order((2 * s - 1) * pr, two_x, p as int);
    lemma_scaled_order((4 * s - 1) * pr, four_x, p as int);
    assert(m % 2 == s % 2);
    if s == 0x80_0000 {
        lemma_pow2_unfold(e);
        let half = pow2((e - 1) as nat);
        assert(2 * (0xff_ffff * half + s * q) == (2 * s - 1) * q + (2 * s) * q) by (nonlinear_arith)
            requires
                q == 2 * half,
                s == 0x80_0000,
        ;
    }
}

/// A sum that is rounded.
proof fn lemma_sum_rounds(
    sa: nat,
    sb: nat,
    s: nat,
    base: nat,
    da: nat,
    pa: nat,
    db: nat,
    pb: nat,
    dr: nat,
    pr: nat,
)
    requires
        is_normal(sa, base + da),
        is_normal(sb, base + db),
        is_normal(s, base + dr),
        is_aligned(base, da, pa, db, pb, dr, pr),
        base + dr > 0,
        ({
            let x = 2 * (sa * pa + sb * pb);
            &&& x < (2 * s + 1) * pr || s % 2 == 0 && x == (2 * s + 1) * pr
            &&& s > 0x80_0000 ==> (2 * s - 1) * pr < x || s % 2 == 0 && (2 * s - 1) * pr == x
            &&& s == 0x80_0000 ==> (4 * s - 1) * pr <= 2 * x
        }),
    ensures
        sum(number(sa, base + da), number(sb, base + db)) == number(s, base + dr),
{
    let (ea, eb, e) = (base + da, base + db, base + dr);
    lemma_number(sa, ea);
    lemma_number(sb, eb);
    lemma_number(s, e);
    lemma_aligned(sa, sb, base, da, pa, db, pb, dr, pr);
    let x = sa * pa + sb * pb;
    let n = x * pow2(base);
    lemma_sum_is_nearest(x, s, base, dr, pr);
    lemma_nearest_unique(n, 1, e * 0x80_0000 + s);
    reveal(sum);
}

/// A product that is cut off.
proof fn lemma_product_cuts(sa: nat, ea: nat, sb: nat, eb: nat, s: nat, e: nat, shift: nat)
    requires
        is_normal(sa, ea),
        is_normal(sb, eb),
        is_normal(s, e),
        ea + eb + shift == e + 149,
        s * pow2(shift) <= sa * sb < (s + 1) * pow2(shift),
    ensures
        product_cut(number(sa, ea), number(sb, eb)) == number(s, e),
{
    lemma_number(sa, ea);
    lemma_number(sb, eb);
    lemma_number(s, e);
    lemma_pow2_adds(ea, eb);
    lemma_pow2_adds(ea + eb, shift);
    lemma_pow2_adds(e, 149);
    lemma_pow2_pos(ea + eb);
    lemma_pow2_pos(149);
    let (a, b, p, q, u) = (pow2(ea), pow2(eb), pow2(shift), pow2(e), pow2(149));
    let ab = a * b;
    let n = (sa * a) * (sb * b);
    let x = sa * sb;
    assert(n == x * ab) by (nonlinear_arith)
        requires
            n == (sa * a) * (sb * b),
            ab == a * b,
            x == sa * sb,
    ;
    assert(u * (s * q) <= n && n < u * ((s + 1) * q)) by (nonlinear_arith)
        requires
            n == x * ab,
            ab * p == q * u,
            s * p <= x < (s + 1) * p,
            ab > 0,
    {
        assert(x * ab < ((s + 1) * p) * ab);
        assert((s * p) * ab <= x * ab);
        assert(((s + 1) * p) * ab == (s + 1) * (q * u));
        assert((s * p) * ab == s * (q * u));
    }
    lemma_floored_unique(n, u, e * 0x80_0000 + s);
    reveal(product_cut);
}

/// A sum that is cut off.
proof fn lemma_sum_cuts(
    sa: nat,
    sb: nat,
    s: nat,
    base: nat,
    da: nat,
    pa: nat,
    db: nat,
    pb: nat,
    dr: nat,
    pr: nat,
)
    requires
        is_normal(sa, base + da),
        is_normal(sb, base + db),
        is_normal(s, base + dr),
        is_aligned(base, da, pa, db, pb, dr, pr),
        s * pr <= sa * pa + sb * pb < (s + 1) * pr,
    ensures
        sum_cut(number(sa, base + da), number(sb, base + db)) == number(s, base + dr),
{
    let (ea, eb, e) = (base + da, base + db, base + dr);
    lemma_number(sa, ea);
    lemma_number(sb, eb);
    lemma_number(s, e);
    lemma_aligned(sa, sb, base, da, pa, db, pb, dr, pr);
    let x = sa * pa + sb * pb;
    let (q, r, p) = (pow2(e), pr, pow2(base));
    let n = x * p;
    assert(1 * (s * q) <= n && n < 1 * ((s + 1) * q)) by (nonlinear_arith)
        requires
            n == x * p,
            q == r * p,
            s * r <= x < (s + 1) * r,
            p > 0,
    {
        assert(x * p < ((s + 1) * r) * p);
        assert((s * r) * p <= x * p);
        assert(((s + 1) * r) * p == (s + 1) * q);
        assert((s * r) * p == s * q);
    }
    lemma_floored_unique(n, 1, e * 0x80_0000 + s);
    reveal(sum_cut);
}

/// The exponentials of the kernel with a sigma of one and a radius of three, each rounded to the
/// nearest number: those of -4.5, -2, -0.5, zero and back.
pub open spec fn nearest_exponentials() -> Seq<F32> {
    seq![
        F32 { bits: 0x3c36_0282 },
        F32 { bits: 0x3e0a_9555 },
        F32 { bits: 0x3f1b_4598 },
        F32 { bits: 0x3f80_0000 },
        F32 { bits: 0x3f1b_4598 },
        F32 { bits: 0x3e0a_9555 },
        F32 { bits: 0x3c36_0282 },
    ]
}

/// The weights that follow from these exponentials.
pub open spec fn weights_of_sigma_one() -> Seq<F32> {
    seq![
        F32 { bits: 0x3b91_431b },
        F32 { bits: 0x3d5d_34f6 },
        F32 { bits: 0x3e77_d859 },
        F32 { bits: 0x3ecc_5052 },
        F32 { bits: 0x3e77_d859 },
        F32 { bits: 0x3d5d_34f6 },
        F32 { bits: 0x3b91_431b },
    ]
}

/// The sum of zero and a number.
proof fn lemma_first_sum(a: F32)
    requires
        is_plain(a),
        a.is_finite(),
    ensures
        sum(zero(), a) == a,
{
    reveal(sum);
    assert(grid(0) == 0);
    lemma_nearest_exact(a.magnitude(), 1);
    assert(grid(a.magnitude()) * 1 == grid(a.magnitude()));
    if a.magnitude() > 0 {
        lemma_grid_increases(0, a.magnitude());
    }
}

/// A number over one, and times one.
proof fn lemma_over_one(a: F32)
    requires
        is_plain(a),
        a.is_finite(),
    ensures
        quotient(a, one()) == a,
        product(a, one()) == a,
{
    reveal(quotient);
    reveal(product);
    lemma_pow2_pos(149);
    lemma_grid_split(0x80_0000, 126);
    lemma2_to64();
    lemma_pow2_adds(23, 126);
    assert(grid(0) == 0);
    lemma_nearest_exact(a.magnitude(), pow2(149));
}

/// The values of the Gaussian function with a sigma of one.
proof fn lemma_values_of_sigma_one() -> (values: Seq<F32>)
    ensures
        values == seq![
        F32 { bits: 0x3b91_390a },
        F32 { bits: 0x3d5d_25a2 },
        F32 { bits: 0x3e77_c72d },
        F32 { bits: 0x3ecc_422a },
        F32 { bits: 0x3e77_c72d },
        F32 { bits: 0x3d5d_25a2 },
        F32 { bits: 0x3b91_390a },
    ],
        gaussian_values(one(), nearest_exponentials()) == values,
{
    lemma2_to64();
    let factor = F32 { bits: 0x4020_6c99 };
    lemma_product_rounds(0x800000, 127, 0xc90fdb, 127, 0xc90fdb, 128, 23);
    lemma_root_rounds(0xc90fdb, 128, 0xa06c99, 127, 23, 0x140d931, 0x140d933);
    assert(root(product(two(), pi())) == factor);
    lemma_over_one(factor);
    lemma_quotient_rounds(0xb60282, 119, 0xa06c99, 127, 0x91390a, 118, 23);
    lemma_quotient_rounds(0x8a9555, 123, 0xa06c99, 127, 0xdd25a2, 121, 24);
    lemma_quotient_rounds(0x9b4598, 125, 0xa06c99, 127, 0xf7c72d, 123, 24);
    lemma_quotient_rounds(0x800000, 126, 0xa06c99, 127, 0xcc422a, 124, 24);
    let values = seq![
        F32 { bits: 0x3b91_390a },
        F32 { bits: 0x3d5d_25a2 },
        F32 { bits: 0x3e77_c72d },
        F32 { bits: 0x3ecc_422a },
        F32 { bits: 0x3e77_c72d },
        F32 { bits: 0x3d5d_25a2 },
        F32 { bits: 0x3b91_390a },
    ];
    assert(gaussian_values(one(), nearest_exponentials()) =~= values);
    values
}

/// The weights of the kernel with a sigma of one.
pub proof fn lemma_weights_of_sigma_one()
    ensures
        gaussian_weights(one(), nearest_exponentials()) == weights_of_sigma_one(),
{
    let values = lemma_values_of_sigma_one();
    lemma2_to64();
    lemma_sum_rounds(0x91390a, 0xdd25a2, 0xef4cc3, 118, 0, 1, 3, 8, 3, 8);
    lemma_sum_rounds(0xef4cc3, 0xf7c72d, 0x99cd2f, 121, 0, 1, 2, 4, 3, 8);
    lemma_sum_rounds(0x99cd2f, 0xcc422a, 0xb307ac, 124, 0, 1, 0, 1, 1, 2);
    lemma_sum_rounds(0xb307ac, 0xf7c72d, 0xf0f977, 123, 2, 4, 0, 1, 2, 4);
    lemma_sum_rounds(0xf0f977, 0xdd25a2, 0xfecbd1, 121, 4, 16, 0, 1, 4, 16);
    lemma_sum_rounds(0xfecbd1, 0x91390a, 0xffee43, 118, 7, 128, 0, 1, 7, 128);
    lemma_first_sum(values[0]);
    reveal_with_fuel(running_sum, 8);
    assert(running_sum(values, 7) == (F32 { bits: 0x3f7f_ee43 }));
    lemma_quotient_rounds(0x800000, 126, 0xffee43, 125, 0x8008df, 126, 24);
    lemma_product_rounds(0x91390a, 118, 0x8008df, 126, 0x91431b, 118, 23);
    lemma_product_rounds(0xdd25a2, 121, 0x8008df, 126, 0xdd34f6, 121, 23);
    lemma_product_rounds(0xf7c72d, 123, 0x8008df, 126, 0xf7d859, 123, 23);
    lemma_product_rounds(0xcc422a, 124, 0x8008df, 126, 0xcc5052, 124, 23);
    assert(gaussian_weights(one(), nearest_exponentials()) =~= weights_of_sigma_one());
}

/// The weights add up to one.
proof fn lemma_total_of_sigma_one()
    ensures
        running_sum(weights_of_sigma_one(), 7) == one(),
{
    lemma2_to64();
    let weights = weights_of_sigma_one();
    lemma_sum_rounds(0x91431b, 0xdd34f6, 0xef5d59, 118, 0, 1, 3, 8, 3, 8);
    lemma_sum_rounds(0xef5d59, 0xf7d859, 0x99d7d8, 121, 0, 1, 2, 4, 3, 8);
    lemma_sum_rounds(0x99d7d8, 0xcc5052, 0xb31415, 124, 0, 1, 0, 1, 1, 2);
    lemma_sum_rounds(0xb31415, 0xf7d859, 0xf10a2b, 123, 2, 4, 0, 1, 2, 4);
    lemma_sum_rounds(0xf10a2b, 0xdd34f6, 0xfedd7a, 121, 4, 16, 0, 1, 4, 16);
    lemma_sum_rounds(0xfedd7a, 0x91431b, 0x800000, 118, 7, 128, 0, 1, 8, 256);
    lemma_first_sum(weights[0]);
    reveal_with_fuel(running_sum, 8);
}

/// What the first pass makes of 255.
spec fn after_one_pass() -> F32 {
    F32 { bits: 0x437e_ffff }
}

/// What the second pass makes of that.
spec fn after_two_passes() -> F32 {
    F32 { bits: 0x437e_fffd }
}

proof fn lemma_first_pass(samples: Seq<F32>)
    requires
        samples.len() == 7,
        forall|j: int| 0 <= j < 7 ==> (#[trigger] samples[j]) == (F32 { bits: 0x437f_0000 }),
    ensures
        weighted_sum_cut(samples, weights_of_sigma_one(), 7) == after_one_pass(),
{
    lemma2_to64();
    lemma_product_cuts(0xff0000, 133, 0x91431b, 118, 0x90b1d7, 126, 24);
    lemma_product_cuts(0xff0000, 133, 0xdd34f6, 121, 0xdc57c1, 129, 24);
    lemma_product_cuts(0xff0000, 133, 0xf7d859, 123, 0xf6e080, 131, 24);
    lemma_product_cuts(0xff0000, 133, 0xcc5052, 124, 0xcb8401, 132, 24);
    lemma_sum_cuts(0x90b1d7, 0xdc57c1, 0xee6dfb, 126, 0, 1, 3, 8, 3, 8);
    lemma_sum_cuts(0xee6dfb, 0xf6e080, 0x993dff, 129, 0, 1, 2, 4, 3, 8);
    lemma_sum_cuts(0x993dff, 0xcb8401, 0xb26100, 132, 0, 1, 0, 1, 1, 2);
    lemma_sum_cuts(0xb26100, 0xf6e080, 0xf01920, 131, 2, 4, 0, 1, 2, 4);
    lemma_sum_cuts(0xf01920, 0xdc57c1, 0xfdde9c, 129, 4, 16, 0, 1, 4, 16);
    lemma_sum_cuts(0xfdde9c, 0x90b1d7, 0xfeffff, 126, 7, 128, 0, 1, 7, 128);
    lemma_cut_keeps(F32 { bits: 0x3f90_b1d7 });
    reveal_with_fuel(weighted_sum_cut, 8);
}

proof fn lemma_second_pass(samples: Seq<F32>)
    requires
        samples.len() == 7,
        forall|j: int| 0 <= j < 7 ==> (#[trigger] samples[j]) == after_one_pass(),
    ensures
        weighted_sum_cut(samples, weights_of_sigma_one(), 7) == after_two_passes(),
{
    lemma2_to64();
    lemma_product_cuts(0xfeffff, 133, 0x91431b, 118, 0x90b1d7, 126, 24);
    lemma_product_cuts(0xfeffff, 133, 0xdd34f6, 121, 0xdc57c0, 129, 24);
    lemma_product_cuts(0xfeffff, 133, 0xf7d859, 123, 0xf6e07f, 131, 24);
    lemma_product_cuts(0xfeffff, 133, 0xcc5052, 124, 0xcb8400, 132, 24);
    lemma_sum_cuts(0x90b1d7, 0xdc57c0, 0xee6dfa, 126, 0, 1, 3, 8, 3, 8);
    lemma_sum_cuts(0xee6dfa, 0xf6e07f, 0x993dfe, 129, 0, 1, 2, 4, 3, 8);
    lemma_sum_cuts(0x993dfe, 0xcb8400, 0xb260ff, 132, 0, 1, 0, 1, 1, 2);
    lemma_sum_cuts(0xb260ff, 0xf6e07f, 0xf0191e, 131, 2, 4, 0, 1, 2, 4);
    lemma_sum_cuts(0xf0191e, 0xdc57c0, 0xfdde9a, 129, 4, 16, 0, 1, 4, 16);
    lemma_sum_cuts(0xfdde9a, 0x90b1d7, 0xfefffd, 126, 7, 128, 0, 1, 7, 128);
    lemma_cut_keeps(F32 { bits: 0x3f90_b1d7 });
    reveal_with_fuel(weighted_sum_cut, 8);
}

/// With the exponentials rounded to the nearest numbers, the blur with a sigma of one and a
/// radius of three takes one step off a channel that is 255 in the whole window of a pixel: a
/// red square is darker after the blur.
pub proof fn law_sigma_one_darkens_full_strength(
    image: Seq<Seq<Pixel>>,
    blur_alpha: bool,
    y: int,
    x: int,
    c: int,
)
    requires
        0 <= y < image.len(),
        0 <= x < image[0].len(),
        0 <= c < 3 || c == 3 && blur_alpha,
        forall|j: int, i: int|
            -3 <= j <= 3 && -3 <= i <= 3 ==> channel(
                #[trigger] image[tap(y, j, image.len() as int)][tap(x, i, image[0].len() as int)],
                c,
            ) == 255,
    ensures
        channel(
            blurred(
                image,
                gaussian_weights(one(), nearest_exponentials()),
                blur_alpha,
                false,
            )[y][x],
            c,
        ) == 254,
{
    lemma_weights_of_sigma_one();
    lemma_total_of_sigma_one();
    let weights = weights_of_sigma_one();
    let columns = column_samples(image, weights, blur_alpha, false, y, x, c);
    let full = F32 { bits: 0x437f_0000 };
    lemma2_to64();
    lemma_number(0xff_0000, 133);
    lemma_pow2_adds(16, 133);
    lemma_pow2_pos(133);
    assert(0xff_0000 * pow2(133) == 255 * pow2(149)) by (nonlinear_arith)
        requires
            pow2(149) == 0x1_0000 * pow2(133),
    ;
    assert(number(0xff_0000, 133) == full);
    lemma_of_int_is(255, full);
    assert forall|j: int| 0 <= j < 7 implies (#[trigger] columns[j]) == after_one_pass() by {
        let row = tap(y, j - 3, image.len() as int);
        let samples = row_samples(image, weights, row, x, c);
        assert forall|i: int| 0 <= i < 7 implies (#[trigger] samples[i]) == full by {
            assert(channel(
                image[tap(y, j - 3, image.len() as int)][tap(x, i - 3, image[0].len() as int)],
                c,
            ) == 255);
        }
        lemma_first_pass(samples);
        lemma_over_one(after_one_pass());
        assert(columns[j] == across(image, weights, blur_alpha, false, row, x, c));
    }
    lemma_second_pass(columns);
    let last = after_two_passes();
    lemma_over_one(last);
    lemma_number(0xfefffd, 133);
    assert(number(0xfefffd, 133) == last);
    assert(byte_of(last) == 254) by {
        reveal(byte_of);
        let p = pow2(133);
        assert((0xfefffd * p) / (0x1_0000 * p) == 254) by (nonlinear_arith)
            requires
                p > 0,
        ;
    }
}

/// The kernel with a sigma of one reaches three pixels to either side, where no radius is given.
pub proof fn law_default_radius_of_sigma_one()
    ensures
        effective_radius(one(), None) == 3,
{
    lemma_zero_and_one();
    lemma2_to64();
    lemma_number(0xc0_0000, 127);
    lemma_pow2_adds(22, 127);
    assert(0xc0_0000 * pow2(127) == 3 * pow2(149)) by (nonlinear_arith)
        requires
            pow2(149) == 0x40_0000 * pow2(127),
    ;
    assert(number(0xc0_0000, 127) == three());
    lemma_of_int_is(3, three());
    lemma_product_of_ints(3, 1);
    reveal(ceiling_i32);
    lemma_pow2_pos(149);
    let unit = pow2(149) as int;
    assert((3 * unit + unit - 1) / unit == 3) by (nonlinear_arith)
        requires
            unit > 0,
    ;
}

/// A red image is changed, and still red, by the blur with a sigma of one and a radius of three,
/// where the exponential function gives the nearest numbers.
pub proof fn law_red_image_is_darkened<E: Fn(F32) -> F32>(
    exp: E,
    weights: Seq<F32>,
    image: Seq<Seq<Pixel>>,
    y: int,
    x: int,
)
    requires
        forall|i: int, r: F32|
            0 <= i < 7 && #[trigger] call_ensures(exp, (gaussian_exponent(3, one(), i),), r) ==> r
                == nearest_exponentials()[i],
        is_gaussian(exp, 3, one(), weights),
        0 <= y < image.len(),
        0 <= x < image[0].len(),
        forall|j: int, i: int|
            0 <= j < image.len() && 0 <= i < image[0].len() ==> (#[trigger] image[j][i]) == (
            Pixel { r: 255, g: 0, b: 0, a: 255 }),
    ensures
        blurred(image, weights, true, false)[y][x] == (Pixel { r: 254, g: 0, b: 0, a: 254 }),
{
    let exponentials = choose|exponentials: Seq<F32>| #[trigger]
        are_exponentials(exp, 3, one(), exponentials) && weights == gaussian_weights(
            one(),
            exponentials,
        );
    assert forall|i: int| 0 <= i < 7 implies exponentials[i] == nearest_exponentials()[i] by {
        assert(call_ensures(exp, (gaussian_exponent(3, one(), i),), exponentials[i]));
    }
    assert(exponentials =~= nearest_exponentials());
    law_sigma_one_darkens_full_strength(image, true, y, x, 0);
    law_sigma_one_darkens_full_strength(image, true, y, x, 3);
    law_absent_colour_stays_absent(image, weights, true, false, y, x, 1);
    law_absent_colour_stays_absent(image, weights, true, false, y, x, 2);
    let pixel = blurred(image, weights, true, false)[y][x];
    assert(channel(pixel, 0) == 254 && channel(pixel, 3) == 254);
    assert(channel(pixel, 1) == 0 && channel(pixel, 2) == 0);
}

} // verus!
