//! The three boxes whose blurs, one after the other, come close to a Gaussian blur.

use crate::float::arith::{difference, product, quotient, root, sum};
use crate::float::convert::{at_most, floor_usize, less, of_int, rounded_count};
use crate::float::numbers::{one, zero, ONE_BITS};
use crate::float::order::{
    is_plain, lemma_floor_at_most, lemma_floor_of_large, lemma_of_int_exact,
    lemma_of_int_keeps_order, lemma_product_keeps_order, lemma_product_of_ints,
    lemma_product_plain, lemma_quotient_keeps_order, lemma_quotient_of_ints,
    lemma_quotient_plain, lemma_root_keeps_order, lemma_root_of_one, lemma_root_of_square,
    lemma_sum_keeps_order, lemma_sum_of_ints, lemma_sum_plain, lemma_zero_and_one,
};
use crate::float::repr::{grid, F32};
use vstd::prelude::*;

verus! {

/// Twelve times the square of sigma.
pub open spec fn twelve_squares(sigma: F32) -> F32 {
    product(product(of_int(12), sigma), sigma)
}

/// The width of the box whose blur, made three times, has the given sigma.
pub open spec fn ideal_width(sigma: F32) -> F32 {
    root(sum(quotient(twelve_squares(sigma), of_int(3)), one()))
}

/// The largest odd number that is not above the ideal width.
pub open spec fn lower_box(sigma: F32) -> nat {
    let w = floor_usize(ideal_width(sigma));
    if w % 2 == 1 {
        w
    } else if w > 0 {
        (w - 1) as nat
    } else {
        1
    }
}

/// How many of the three boxes have the smaller size: the nearest whole number to
/// `(12 sigma^2 - 3 w^2 - 12 w - 9) / (-4 w - 4)` for the smaller size `w`, cut off at zero
/// and three.
pub open spec fn smaller_boxes(sigma: F32) -> nat {
    let w = lower_box(sigma) as int;
    let numerator = difference(
        difference(difference(twelve_squares(sigma), of_int(3 * w * w)), of_int(12 * w)),
        of_int(9),
    );
    let denominator = difference(product(of_int(-4), of_int(w)), of_int(4));
    rounded_count(quotient(numerator, denominator), 3)
}

/// The sizes of the three boxes, the smaller ones first.
pub open spec fn box_sizes(sigma: F32) -> Seq<nat> {
    Seq::new(
        3,
        |i: int|
            if i < smaller_boxes(sigma) {
                lower_box(sigma)
            } else {
                lower_box(sigma) + 2
            },
    )
}

/// Whether the formulas of the boxes stay within a machine word.
pub open spec fn boxes_fit(sigma: F32) -> bool {
    3 * (lower_box(sigma) * lower_box(sigma)) <= usize::MAX
}

/// How far a box of this size reaches to either side. The size is cut off to a 32-bit
/// integer first, and a negative one gives zero.
pub open spec fn box_radius(size: int) -> u32 {
    let low = size % 0x1_0000_0000;
    if low == 0 || low >= 0x8000_0000 {
        0
    } else {
        ((low - 1) / 2) as u32
    }
}

/// The ideal width for a sigma above zero is at least one.
proof fn lemma_ideal_width(sigma: F32)
    requires
        less(zero(), sigma),
    ensures
        floor_usize(ideal_width(sigma)) >= 1,
{
    lemma_zero_and_one();
    lemma_of_int_exact(12);
    lemma_of_int_exact(3);
    assert(is_plain(sigma) && !sigma.is_zero());
    let twelve = of_int(12);
    assert(12 * vstd::arithmetic::power2::pow2(149) > 0) by {
        vstd::arithmetic::power2::lemma_pow2_pos(149);
    }
    assert(3 * vstd::arithmetic::power2::pow2(149) > 0) by {
        vstd::arithmetic::power2::lemma_pow2_pos(149);
    }
    assert(grid(0) == 0);
    assert(!twelve.is_zero());
    assert(!of_int(3).is_zero());
    lemma_product_plain(twelve, sigma);
    assert(sigma.is_infinite() ==> !product(twelve, sigma).is_zero()) by {
        reveal(product);
    }
    assert(product(twelve, sigma).is_infinite() ==> !sigma.is_zero());
    lemma_product_plain(product(twelve, sigma), sigma);
    lemma_quotient_plain(twelve_squares(sigma), of_int(3));
    let x = quotient(twelve_squares(sigma), of_int(3));
    lemma_sum_plain(x, one());
    lemma_root_of_one();
    lemma_root_keeps_order(one(), sum(x, one()));
    lemma_root_keeps_order(sum(x, one()), sum(x, one()));
    lemma_floor_of_large(ideal_width(sigma));
}

/// The smaller box is the largest odd number that is not above the ideal width, the boxes
/// have odd sizes, and the smaller ones come first.
pub proof fn law_box_sizes(sigma: F32)
    requires
        less(zero(), sigma),
    ensures
        lower_box(sigma) % 2 == 1,
        lower_box(sigma) <= floor_usize(ideal_width(sigma)) < lower_box(sigma) + 2,
        forall|i: int| 0 <= i < 3 ==> (#[trigger] box_sizes(sigma)[i]) % 2 == 1,
        box_sizes(sigma)[0] <= box_sizes(sigma)[1] <= box_sizes(sigma)[2],
        box_sizes(sigma)[2] <= box_sizes(sigma)[0] + 2,
{
    lemma_ideal_width(sigma);
}

/// A box of an odd size reaches as far to the one side as to the other, with one pixel between.
pub proof fn law_box_is_around_its_middle(size: int)
    requires
        0 < size < 0x8000_0000,
        size % 2 == 1,
    ensures
        box_radius(size) + 1 + box_radius(size) == size,
{
}

/// The boxes fit for every sigma that is blurred at full size, and are at most 67 pixels
/// wide.
pub proof fn lemma_boxes_fit(sigma: F32)
    requires
        less(zero(), sigma),
        at_most(sigma, of_int(32)),
    ensures
        boxes_fit(sigma),
        lower_box(sigma) <= 65,
{
    lemma_zero_and_one();
    lemma_of_int_exact(12);
    lemma_of_int_exact(32);
    lemma_of_int_exact(3);
    lemma_of_int_exact(384);
    lemma_of_int_exact(12288);
    lemma_of_int_exact(4096);
    lemma_of_int_exact(4097);
    lemma_of_int_exact(4225);
    assert(grid(0) == 0);
    assert(!of_int(3).is_zero()) by {
        vstd::arithmetic::power2::lemma_pow2_pos(149);
    }
    lemma_product_keeps_order(of_int(12), sigma, of_int(12), of_int(32));
    lemma_product_of_ints(12, 32);
    lemma_product_keeps_order(product(of_int(12), sigma), sigma, of_int(384), of_int(32));
    lemma_product_of_ints(384, 32);
    lemma_quotient_keeps_order(twelve_squares(sigma), of_int(12288), of_int(3));
    lemma_quotient_of_ints(4096, 3);
    let x = quotient(twelve_squares(sigma), of_int(3));
    lemma_sum_keeps_order(x, of_int(4096), one());
    lemma_sum_of_ints(4096, 1);
    lemma_of_int_keeps_order(4097, 4225);
    lemma_root_keeps_order(sum(x, one()), of_int(4225));
    lemma_root_of_square(65);
    lemma_floor_at_most(ideal_width(sigma), 65);
    let w = lower_box(sigma);
    assert(w * w <= 65 * 65) by (nonlinear_arith)
        requires
            w <= 65,
    ;
}

/// Whether the boxes for a sigma can be computed.
pub fn can_compute_boxes(sigma: F32) -> (r: bool)
    ensures
        r == (less(zero(), sigma) && boxes_fit(sigma)),
{
    if !F32::from_bits(0).lt(sigma) {
        return false;
    }
    let w = lower_box_size(sigma);
    match w.checked_mul(w) {
        Some(s) => s <= usize::MAX / 3,
        None => false,
    }
}

/// The largest odd number that is not above the ideal width.
fn lower_box_size(sigma: F32) -> (w: usize)
    requires
        less(zero(), sigma),
    ensures
        w == lower_box(sigma),
        w % 2 == 1,
{
    let twelve = F32::from_u64(12).times(sigma).times(sigma);
    let ideal = twelve.over(F32::from_u64(3)).plus(F32::from_bits(ONE_BITS)).sqrt();
    let mut w: usize = ideal.floor_to_usize();
    proof {
        lemma_ideal_width(sigma);
    }
    if w % 2 == 0 {
        w = w - 1;
    }
    w
}

/// Calculate optimal box sizes for 3-pass Gaussian approximation
pub fn boxes_for_gauss_3pass(sigma: F32) -> (sizes: [usize; 3])
    requires
        less(zero(), sigma),
        boxes_fit(sigma),
    ensures
        forall|i: int| 0 <= i < 3 ==> (#[trigger] sizes@[i]) == box_sizes(sigma)[i],
        forall|i: int| 0 <= i < 3 ==> (#[trigger] sizes@[i]) % 2 == 1,
{
    let wl = lower_box_size(sigma);
    proof {
        lemma_word_sizes(wl as nat);
    }
    let wu: usize = wl + 2;
    let twelve = F32::from_u64(12).times(sigma).times(sigma);
    let numerator = twelve.minus(F32::from_u64((3 * wl * wl) as u64)).minus(
        F32::from_u64((12 * wl) as u64),
    ).minus(F32::from_u64(9));
    let denominator = F32::from_i32(-4).times(F32::from_u64(wl as u64)).minus(F32::from_u64(4));
    let m = numerator.over(denominator).round_to_count(3);
    proof {
        assert(3 * wl * wl == 3 * (wl * wl)) by (nonlinear_arith);
        assert(m == smaller_boxes(sigma));
    }
    let first = if m > 0 {
        wl
    } else {
        wu
    };
    let second = if m > 1 {
        wl
    } else {
        wu
    };
    let third = if m > 2 {
        wl
    } else {
        wu
    };
    [first, second, third]
}

/// What follows for a size whose square, taken three times, fits into a machine word.
proof fn lemma_word_sizes(w: nat)
    requires
        3 * (w * w) <= usize::MAX,
    ensures
        3 * w <= usize::MAX,
        3 * w * w <= usize::MAX,
        12 * w <= usize::MAX,
        w + 2 <= usize::MAX,
{
    assert(3 * w * w == 3 * (w * w)) by (nonlinear_arith);
    if w >= 4 {
        assert(w * w >= 4 * w) by (nonlinear_arith)
            requires
                w >= 4,
        ;
    }
}

/// How far a box of this size reaches to either side.
pub fn radius_of_box(size: usize) -> (r: u32)
    requires
        size % 2 == 1,
    ensures
        r == box_radius(size as int),
{
    let low: u32 = crate::bytes::to_u32(size);
    if low == 0 || low >= 0x8000_0000 {
        0
    } else {
        (low - 1) / 2
    }
}

} // verus!
