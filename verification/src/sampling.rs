//! Where a blur reads its samples and how it adds them up.

use crate::float::arith::{product, quotient, sum};
use crate::float::cut::{product_cut, sum_cut};
use crate::float::numbers::{one, zero};
use crate::float::repr::F32;
use crate::pixel::Pixel;
use vstd::prelude::*;

verus! {

/// The pixels of an image, row by row.
pub open spec fn pixels_of(image: Seq<Vec<Pixel>>) -> Seq<Seq<Pixel>> {
    Seq::new(image.len(), |y: int| image[y]@)
}

/// Whether every row of an image is at least as long as the first one, whose length is
/// the width of the image.
pub open spec fn covers_width(image: Seq<Vec<Pixel>>) -> bool {
    forall|y: int| 0 <= y < image.len() ==> image[0]@.len() <= #[trigger] image[y]@.len()
}

/// The index that lies `offset` after `at`, moved to the nearer end where it lies
/// outside the range of `len` indices.
pub open spec fn tap(at: int, offset: int, len: int) -> int {
    if at + offset < 0 {
        0
    } else if at + offset > len - 1 {
        len - 1
    } else {
        at + offset
    }
}

/// The index that is read for a wanted one lies inside the range, and no other index there is
/// closer to the wanted one.
pub proof fn law_tap_is_nearest(at: int, offset: int, len: int, other: int)
    requires
        0 <= other < len,
    ensures
        0 <= tap(at, offset, len) < len,
        ({
            let wanted = at + offset;
            let read = tap(at, offset, len);
            let far = if wanted <= read {
                read - wanted
            } else {
                wanted - read
            };
            let other_far = if wanted <= other {
                other - wanted
            } else {
                wanted - other
            };
            &&& far <= other_far
            &&& far == other_far ==> other == read
        }),
{
}

/// No index is read that is farther away than the offset asks for.
pub proof fn law_tap_stays_near(at: int, offset: int, len: int)
    requires
        0 <= at < len,
    ensures
        -offset <= tap(at, offset, len) - at <= offset || offset <= tap(at, offset, len) - at
            <= -offset,
        0 <= at + offset < len ==> tap(at, offset, len) - at == offset,
{
}

/// How far a kernel of so many weights reaches to either side.
pub open spec fn reach(weights: Seq<F32>) -> int {
    weights.len() as int / 2
}

/// The sum of the first `n` samples, each multiplied by its weight, added up from the
/// first to the last.
pub open spec fn weighted_sum(samples: Seq<F32>, weights: Seq<F32>, n: nat) -> F32
    decreases n,
{
    if n == 0 {
        zero()
    } else {
        sum(
            weighted_sum(samples, weights, (n - 1) as nat),
            product(samples[n - 1], weights[n - 1]),
        )
    }
}

/// The sum of the first `n` samples, each multiplied by its weight, added up from the first to
/// the last, with every product and every sum cut off: it is never above the exact sum.
pub open spec fn weighted_sum_cut(samples: Seq<F32>, weights: Seq<F32>, n: nat) -> F32
    decreases n,
{
    if n == 0 {
        zero()
    } else {
        sum_cut(
            weighted_sum_cut(samples, weights, (n - 1) as nat),
            product_cut(samples[n - 1], weights[n - 1]),
        )
    }
}

/// The sum of the first `n` samples that a pass of a blur computes. Lanes are rounded to the
/// nearest number, the channels that are computed one by one are cut off.
pub open spec fn gathered(samples: Seq<F32>, weights: Seq<F32>, n: nat, lanes: bool) -> F32 {
    if lanes {
        weighted_sum(samples, weights, n)
    } else {
        weighted_sum_cut(samples, weights, n)
    }
}

/// The sum of the first `n` numbers, added up from the first to the last.
pub open spec fn running_sum(values: Seq<F32>, n: nat) -> F32
    decreases n,
{
    if n == 0 {
        zero()
    } else {
        sum(running_sum(values, (n - 1) as nat), values[n - 1])
    }
}

/// A weighted sum over the sum of the weights. With lanes the sum of the weights is
/// inverted once and every lane multiplied by the inverse.
pub open spec fn normalized(weighted: F32, total: F32, lanes: bool) -> F32 {
    if lanes {
        product(weighted, quotient(one(), total))
    } else {
        quotient(weighted, total)
    }
}

/// The index that lies `offset` after `at`, moved into the range of `len` indices.
pub fn clamp_index(at: usize, offset: i32, len: usize) -> (r: usize)
    requires
        at < len <= i32::MAX,
        at + offset <= i32::MAX,
    ensures
        r == tap(at as int, offset as int, len as int),
        r < len,
        0 <= at + offset < len ==> r == at + offset,
        at + offset < 0 ==> r == 0,
        at + offset >= len ==> r == len - 1,
{
    let p: i32 = at as i32 + offset;
    if p < 0 {
        0
    } else if p > len as i32 - 1 {
        len - 1
    } else {
        p as usize
    }
}

} // verus!
