//! How a graphics processor blurs, by the width of the Gaussian function.

use crate::float::arith::quotient;
use crate::float::convert::{at_most, law_less_is_by_value, less, of_int};
use crate::float::order::lemma_of_int_exact;
use crate::float::repr::{grid, lemma_grid_increases, lemma_parts_of, F32};
use crate::float::round::lemma_nearest_exact;
use vstd::arithmetic::power2::{
    lemma2_to64, lemma_pow2_adds, lemma_pow2_pos, lemma_pow2_strictly_increases, pow2,
};
use vstd::prelude::*;

verus! {

/// The largest sigma that is blurred with true Gaussian weights.
pub const GAUSSIAN_THRESHOLD: u64 = 2;

/// The largest sigma that is blurred at full size.
pub const DOWNSAMPLE_THRESHOLD: u64 = 32;

/// The largest sigma for which every second row and column is kept.
pub const MEDIUM_SIGMA_THRESHOLD: u64 = 64;

/// The largest sigma for which every fourth row and column is kept.
pub const LARGE_SIGMA_THRESHOLD: u64 = 100;

/// Blur strategy based on sigma value
#[derive(Clone, Copy, Debug, PartialEq, Eq, Structural)]
pub enum BlurStrategy {
    /// True Gaussian convolution
    Gaussian,
    /// 3-pass box blur approximation
    Box3Pass,
    /// The box blur of an image made smaller by a factor of 2, 4, or 8, with sigma made
    /// smaller alike
    Downsample { factor: u32, adjusted_sigma: F32 },
}

/// The factor by which an image is made smaller.
pub open spec fn downsample_factor(sigma: F32) -> u32 {
    if less(of_int(LARGE_SIGMA_THRESHOLD as int), sigma) {
        8
    } else if less(of_int(MEDIUM_SIGMA_THRESHOLD as int), sigma) {
        4
    } else {
        2
    }
}

/// The strategy for a sigma.
pub open spec fn strategy_for(sigma: F32) -> BlurStrategy {
    if at_most(sigma, of_int(GAUSSIAN_THRESHOLD as int)) {
        BlurStrategy::Gaussian
    } else if at_most(sigma, of_int(DOWNSAMPLE_THRESHOLD as int)) {
        BlurStrategy::Box3Pass
    } else {
        BlurStrategy::Downsample {
            factor: downsample_factor(sigma),
            adjusted_sigma: quotient(sigma, of_int(downsample_factor(sigma) as int)),
        }
    }
}

/// Select the optimal blur strategy based on sigma value
pub fn select_strategy(sigma: F32) -> (s: BlurStrategy)
    ensures
        s == strategy_for(sigma),
{
    if sigma.le(F32::from_u64(GAUSSIAN_THRESHOLD)) {
        BlurStrategy::Gaussian
    } else if sigma.le(F32::from_u64(DOWNSAMPLE_THRESHOLD)) {
        BlurStrategy::Box3Pass
    } else {
        let factor: u32 = if F32::from_u64(LARGE_SIGMA_THRESHOLD).lt(sigma) {
            8
        } else if F32::from_u64(MEDIUM_SIGMA_THRESHOLD).lt(sigma) {
            4
        } else {
            2
        };
        BlurStrategy::Downsample {
            factor,
            adjusted_sigma: sigma.over(F32::from_u64(factor as u64)),
        }
    }
}

/// The number with a value `k` binades lower, for a number of ordinary size.
proof fn lemma_binades_lower(m: nat, k: nat) -> (r: nat)
    requires
        k <= 3,
        0x800_0000 <= m,
    ensures
        r <= m,
        grid(r) * pow2(k) == grid(m),
{
    let r = (m - k * 0x80_0000) as nat;
    let e = m / 0x80_0000;
    assert(r / 0x80_0000 == e - k && r % 0x80_0000 == m % 0x80_0000);
    lemma_pow2_adds((e - k - 1) as nat, k);
    let s = 0x80_0000 + m % 0x80_0000;
    let (a, b) = (pow2((e - k - 1) as nat), pow2(k));
    assert((s * a) * b == s * (a * b)) by (nonlinear_arith);
    r
}

/// The strategies by the value of sigma: true Gaussian weights up to 2, boxes at full size up to
/// 32, and above that boxes on an image made smaller, by 2 up to a sigma of 64, by 4 up to 100
/// and by 8 beyond. The sigma there is exactly that many times smaller.
pub proof fn law_strategy_is_by_value(sigma: F32)
    requires
        sigma.is_finite(),
    ensures
        sigma.scaled() <= 2 * pow2(149) <==> strategy_for(sigma) is Gaussian,
        2 * pow2(149) < sigma.scaled() <= 32 * pow2(149) <==> strategy_for(sigma) is Box3Pass,
        sigma.scaled() > 32 * pow2(149) <==> strategy_for(sigma) is Downsample,
        strategy_for(sigma) matches BlurStrategy::Downsample { factor, adjusted_sigma } ==> {
            &&& factor == 2 <==> sigma.scaled() <= 64 * pow2(149)
            &&& factor == 4 <==> 64 * pow2(149) < sigma.scaled() <= 100 * pow2(149)
            &&& factor == 8 <==> sigma.scaled() > 100 * pow2(149)
            &&& adjusted_sigma.is_finite()
            &&& adjusted_sigma.scaled() * factor == sigma.scaled()
        },
{
    let unit = pow2(149);
    lemma_of_int_exact(2);
    lemma_of_int_exact(4);
    lemma_of_int_exact(8);
    lemma_of_int_exact(32);
    lemma_of_int_exact(64);
    lemma_of_int_exact(100);
    law_less_is_by_value(of_int(2), sigma);
    law_less_is_by_value(of_int(32), sigma);
    law_less_is_by_value(of_int(64), sigma);
    law_less_is_by_value(of_int(100), sigma);
    if let BlurStrategy::Downsample { factor, adjusted_sigma } = strategy_for(sigma) {
        lemma2_to64();
        lemma_pow2_pos(149);
        let m = sigma.magnitude();
        if m < 0x800_0000 {
            // Such a number is far below one.
            lemma_grid_increases(m, 0x800_0000);
            assert(0x800_0000nat / 0x80_0000 == 16 && 0x800_0000nat % 0x80_0000 == 0);
            lemma_pow2_adds(23, 15);
            lemma_pow2_strictly_increases(38, 149);
        }
        let k: nat = if factor == 2 {
            1
        } else if factor == 4 {
            2
        } else {
            3
        };
        let r = lemma_binades_lower(m, k);
        let d = factor * unit;
        let g = grid(r);
        assert(grid(m) * unit == g * d) by (nonlinear_arith)
            requires
                g * factor == grid(m),
                d == factor * unit,
        ;
        assert(d > 0) by (nonlinear_arith)
            requires
                d == factor * unit,
                factor > 0,
                unit > 0,
        ;
        assert(grid(0) == 0);
        lemma_nearest_exact(r, d as nat);
        assert(adjusted_sigma == F32::of(false, r)) by {
            reveal(quotient);
        }
        lemma_parts_of(false, r);
    }
}

} // verus!
