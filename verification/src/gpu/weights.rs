//! The Gaussian weights that a graphics processor is handed.

use crate::brightness::{are_plain, exact_sum, lemma_exact_sum_bounds, lemma_running_sum_error};
use crate::float::arith::{product, quotient};
use crate::float::convert::of_int;
use crate::float::error::{lemma_small_rounding_error, near};
use crate::float::numbers::{one, two, TWO_BITS, ZERO_BITS};
use crate::float::order::{is_plain, lemma_root_of_one};
use crate::float::repr::{grid, lemma_parts_of, F32};
use crate::float::round::nearest;
use crate::gpu::params::{are_words_in_memory, bytes_of_words};
use crate::laws::is_deterministic;
use crate::sampling::running_sum;
use vstd::arithmetic::power2::{
    lemma2_to64, lemma2_to64_rest, lemma_pow2_adds, lemma_pow2_pos, lemma_pow2_strictly_increases,
    pow2,
};
use vstd::prelude::*;

verus! {

/// The number of weights that the shader has room for, in groups of four.
pub const MAX_WEIGHTS: u32 = 1024;

/// Whether the shader has room for the weights of a kernel with this radius.
pub open spec fn weights_have_room(radius: int) -> bool {
    0 <= radius && 2 * radius + 1 <= MAX_WEIGHTS
}

/// The exponent of the Gaussian function at a weight: `-(x * x) / (2 * sigma * sigma)`,
/// with the square taken in whole numbers.
pub open spec fn shader_exponent(radius: int, sigma: F32, i: int) -> F32 {
    quotient(of_int(-((i - radius) * (i - radius))), product(product(two(), sigma), sigma))
}

/// Whether `exponentials` are results of `exp` on the exponents of a kernel.
pub open spec fn are_shader_exponentials<E: Fn(F32) -> F32>(
    exp: E,
    radius: int,
    sigma: F32,
    exponentials: Seq<F32>,
) -> bool {
    &&& exponentials.len() == 2 * radius + 1
    &&& forall|i: int|
        0 <= i < exponentials.len() ==> call_ensures(
            exp,
            (shader_exponent(radius, sigma, i),),
            #[trigger] exponentials[i],
        )
}

/// The words of the weights: each exponential over the sum of all, then zeros.
pub open spec fn weight_words(exponentials: Seq<F32>) -> Seq<u32> {
    Seq::new(
        MAX_WEIGHTS as nat,
        |i: int|
            if i < exponentials.len() {
                quotient(exponentials[i], running_sum(exponentials, exponentials.len())).bits
            } else {
                0
            },
    )
}

/// The words of the weights of a kernel, from the exponentials of its exponents.
pub fn pack_weights(exponentials: &Vec<F32>) -> (words: Vec<u32>)
    requires
        exponentials@.len() <= MAX_WEIGHTS,
    ensures
        words@ == weight_words(exponentials@),
{
    let mut total = F32::from_bits(ZERO_BITS);
    for i in 0..exponentials.len()
        invariant
            total == running_sum(exponentials@, i as nat),
    {
        total = total.plus(exponentials[i]);
    }
    let mut words: Vec<u32> = Vec::new();
    for i in 0..exponentials.len()
        invariant
            exponentials@.len() <= MAX_WEIGHTS,
            total == running_sum(exponentials@, exponentials@.len()),
            words@.len() == i,
            forall|j: int| 0 <= j < i ==> words@[j] == weight_words(exponentials@)[j],
    {
        words.push(exponentials[i].over(total).to_bits());
    }
    for i in exponentials.len()..MAX_WEIGHTS as usize
        invariant
            exponentials@.len() <= MAX_WEIGHTS,
            words@.len() == i,
            exponentials@.len() <= i,
            forall|j: int| 0 <= j < i ==> words@[j] == weight_words(exponentials@)[j],
    {
        words.push(0);
    }
    assert(words@ =~= weight_words(exponentials@));
    words
}

/// Precompute Gaussian kernel weights packed into groups of four
pub fn precompute_gaussian_weights<E: Fn(F32) -> F32>(radius: u32, sigma: F32, exp: &E) -> (bytes:
    Vec<u8>)
    requires
        weights_have_room(radius as int),
        forall|x: F32| call_requires(*exp, (x,)),
    ensures
        exists|exponentials: Seq<F32>| #[trigger]
            are_shader_exponentials(*exp, radius as int, sigma, exponentials)
                && are_words_in_memory(bytes@, weight_words(exponentials)),
{
    let size: usize = (2 * radius + 1) as usize;
    let divisor = F32::from_bits(TWO_BITS).times(sigma).times(sigma);
    let mut exponentials: Vec<F32> = Vec::new();
    for i in 0..size
        invariant
            weights_have_room(radius as int),
            size == 2 * radius + 1,
            divisor == product(product(two(), sigma), sigma),
            forall|x: F32| call_requires(*exp, (x,)),
            exponentials@.len() == i,
            forall|j: int|
                0 <= j < i ==> call_ensures(
                    *exp,
                    (shader_exponent(radius as int, sigma, j),),
                    #[trigger] exponentials@[j],
                ),
    {
        let x: i32 = i as i32 - radius as i32;
        assert(0 <= x * x <= 0x4_0000) by (nonlinear_arith)
            requires
                -512 <= x <= 512,
        ;
        let exponent = F32::from_i32(-(x * x)).over(divisor);
        exponentials.push(exp(exponent));
    }
    let words = pack_weights(&exponentials);
    assert(are_shader_exponentials(*exp, radius as int, sigma, exponentials@));
    bytes_of_words(&words)
}

/// The numbers that the words of the weights stand for.
pub open spec fn weight_numbers(exponentials: Seq<F32>) -> Seq<F32> {
    Seq::new(
        MAX_WEIGHTS as nat,
        |i: int| F32 { bits: weight_words(exponentials)[i] },
    )
}

/// The weights are the same on both sides of the middle, where the exponential of a number is
/// always the same, and zero after the last one.
pub proof fn law_shader_weights_are_symmetric<E: Fn(F32) -> F32>(
    exp: E,
    radius: int,
    sigma: F32,
    exponentials: Seq<F32>,
)
    requires
        is_deterministic(exp),
        weights_have_room(radius),
        are_shader_exponentials(exp, radius, sigma, exponentials),
    ensures
        forall|i: int|
            0 <= i <= 2 * radius ==> (#[trigger] weight_words(exponentials)[i]) == weight_words(
                exponentials,
            )[2 * radius - i],
        forall|i: int|
            2 * radius < i < MAX_WEIGHTS ==> (#[trigger] weight_words(exponentials)[i]) == 0,
{
    assert forall|i: int| 0 <= i <= 2 * radius implies (#[trigger] weight_words(exponentials)[i])
        == weight_words(exponentials)[2 * radius - i] by {
        let k = 2 * radius - i;
        assert((i - radius) * (i - radius) == (k - radius) * (k - radius)) by (nonlinear_arith)
            requires
                k == 2 * radius - i,
        ;
        assert(call_ensures(exp, (shader_exponent(radius, sigma, i),), exponentials[i]));
        assert(call_ensures(exp, (shader_exponent(radius, sigma, k),), exponentials[k]));
    }
}

/// The exact sum of the first `n` weights, each multiplied by the sum of the exponentials, and
/// what the roundings of the weights make of it.
proof fn lemma_weight_sum(exponentials: Seq<F32>, n: nat)
    requires
        n <= exponentials.len() <= MAX_WEIGHTS,
        are_plain(exponentials),
        forall|i: int|
            0 <= i < exponentials.len() ==> grid((#[trigger] exponentials[i]).magnitude()) <= pow2(
                149,
            ),
        is_plain(running_sum(exponentials, exponentials.len())),
        running_sum(exponentials, exponentials.len()).is_finite(),
        grid(running_sum(exponentials, exponentials.len()).magnitude()) >= pow2(148),
    ensures
        forall|i: int|
            0 <= i < n ==> is_plain(#[trigger] weight_numbers(exponentials)[i]) && weight_numbers(
                exponentials,
            )[i].is_finite(),
        ({
            let r = grid(running_sum(exponentials, exponentials.len()).magnitude());
            let got = exact_sum(weight_numbers(exponentials), n) * r;
            let want = exact_sum(exponentials, n) * pow2(149);
            &&& 0x100_0000 * got <= 0x100_0000 * want + want + n * (0x80_0000 * r)
            &&& 0x100_0000 * want <= 0x100_0000 * got + want + n * (0x80_0000 * r)
        }),
    decreases n,
{
    let total = running_sum(exponentials, exponentials.len());
    let r = grid(total.magnitude());
    let unit = pow2(149);
    let all = weight_numbers(exponentials);
    if n == 0 {
        assert(0 * r == 0 && 0 * unit == 0 && 0 * (0x80_0000 * r) == 0);
    } else {
        let k = (n - 1) as nat;
        lemma_weight_sum(exponentials, k);
        let e = grid(exponentials[n - 1].magnitude());
        lemma_pow2_pos(148);
        lemma_pow2_pos(149);
        lemma_pow2_adds(149, 149);
        lemma_pow2_adds(148, 276);
        lemma_pow2_strictly_increases(298, 424);
        assert(grid(0) == 0);
        assert(e * unit < r * pow2(276)) by (nonlinear_arith)
            requires
                e <= unit,
                unit * unit < pow2(148) * pow2(276),
                pow2(148) <= r,
        ;
        lemma_small_rounding_error(e * unit, r);
        let m = nearest(e * unit, r);
        assert(all[n - 1] == F32::of(false, m)) by {
            reveal(quotient);
        }
        lemma_parts_of(false, m);
        let g = grid(m);
        let sums = exact_sum(all, k);
        let wants = exact_sum(exponentials, k);
        assert((sums + g) * r == sums * r + g * r) by (nonlinear_arith);
        assert((wants + e) * unit == wants * unit + e * unit) by (nonlinear_arith);
        assert(n * (0x80_0000 * r) == k * (0x80_0000 * r) + 0x80_0000 * r) by (nonlinear_arith)
            requires
                n == k + 1,
        ;
    }
}

/// The weights after the last one add nothing.
proof fn lemma_weight_tail(exponentials: Seq<F32>, n: nat)
    requires
        exponentials.len() <= n <= MAX_WEIGHTS,
    ensures
        exact_sum(weight_numbers(exponentials), n) == exact_sum(
            weight_numbers(exponentials),
            exponentials.len(),
        ),
    decreases n,
{
    if n > exponentials.len() {
        lemma_weight_tail(exponentials, (n - 1) as nat);
        assert(grid(0) == 0);
    }
}

/// The errors of the weights and of the sum that they are divided by, put together.
proof fn lemma_weight_error(s: int, r: int, e: int, unit: int, n: int)
    requires
        0 < n <= 1024,
        s >= 0,
        e > 0,
        unit >= 0x2_0000_0000,
        near(r, e, 2 * n),
        0x100_0000 * (s * r) <= 0x100_0000 * (e * unit) + e * unit + n * (0x80_0000 * r),
        0x100_0000 * (e * unit) <= 0x100_0000 * (s * r) + e * unit + n * (0x80_0000 * r),
    ensures
        near(s, unit, 4 * n + 3),
{
    let sr = s * r;
    let eu = e * unit;
    let ru = r * unit;
    let neu = n * eu;
    let nru = n * ru;
    assert(e <= 2 * r) by (nonlinear_arith)
        requires
            (0x100_0000 - 2 * n) * e <= 0x100_0000 * r,
            0 < n <= 1024,
            e > 0,
    ;
    assert(n * (0x80_0000 * r) <= ru) by (nonlinear_arith)
        requires
            0 < n <= 1024,
            unit >= 0x2_0000_0000,
            ru == r * unit,
            r >= 0,
    ;
    assert(eu <= 2 * ru) by (nonlinear_arith)
        requires
            e <= 2 * r,
            eu == e * unit,
            ru == r * unit,
            unit >= 0,
    ;
    assert(neu <= 2 * nru) by (nonlinear_arith)
        requires
            eu <= 2 * ru,
            neu == n * eu,
            nru == n * ru,
            n > 0,
    ;
    assert(0x100_0000 * ru <= 0x100_0000 * eu + 2 * neu && 0x100_0000 * eu <= 0x100_0000 * ru + 2
        * neu) by (nonlinear_arith)
        requires
            (0x100_0000 - 2 * n) * e <= 0x100_0000 * r <= (0x100_0000 + 2 * n) * e,
            eu == e * unit,
            ru == r * unit,
            neu == n * eu,
            unit >= 0,
    ;
    assert(0x100_0000 * sr <= 0x100_0000 * ru + 4 * nru + 3 * ru);
    assert(0x100_0000 * ru <= 0x100_0000 * sr + 4 * nru + 3 * ru);
    assert((0x100_0000 - (4 * n + 3)) * unit <= 0x100_0000 * s) by (nonlinear_arith)
        requires
            0x100_0000 * ru <= 0x100_0000 * sr + 4 * nru + 3 * ru,
            ru == r * unit,
            sr == s * r,
            nru == n * ru,
            r > 0,
    {
        assert(((0x100_0000 - (4 * n + 3)) * unit) * r <= (0x100_0000 * s) * r);
    }
    assert(0x100_0000 * s <= (0x100_0000 + (4 * n + 3)) * unit) by (nonlinear_arith)
        requires
            0x100_0000 * sr <= 0x100_0000 * ru + 4 * nru + 3 * ru,
            ru == r * unit,
            sr == s * r,
            nru == n * ru,
            r > 0,
    {
        assert((0x100_0000 * s) * r <= ((0x100_0000 + (4 * n + 3)) * unit) * r);
    }
}

/// The weights are finite, have no sign, and add up to one but for the roundings: where the
/// exponentials are at most one and one of them, that of the middle, is one.
pub proof fn law_shader_weights_are_normalized(exponentials: Seq<F32>, middle: int)
    requires
        0 < exponentials.len() <= MAX_WEIGHTS,
        are_plain(exponentials),
        forall|i: int|
            0 <= i < exponentials.len() ==> grid((#[trigger] exponentials[i]).magnitude()) <= pow2(
                149,
            ),
        0 <= middle < exponentials.len(),
        exponentials[middle] == one(),
    ensures
        are_plain(weight_numbers(exponentials)),
        near(
            exact_sum(weight_numbers(exponentials), MAX_WEIGHTS as nat) as int,
            pow2(149) as int,
            4 * exponentials.len() as int + 3,
        ),
{
    let n = exponentials.len();
    let unit = pow2(149);
    lemma_root_of_one();
    lemma_exact_sum_bounds(exponentials, n, middle, unit);
    lemma2_to64();
    lemma2_to64_rest();
    lemma_pow2_adds(10, 149);
    lemma_pow2_adds(1, 148);
    lemma_pow2_strictly_increases(33, 149);
    lemma_pow2_strictly_increases(159, 270);
    lemma_pow2_pos(148);
    assert(n * unit <= 1024 * unit) by (nonlinear_arith)
        requires
            n <= 1024,
    ;
    lemma_running_sum_error(exponentials, n);
    let e = exact_sum(exponentials, n) as int;
    let r = grid(running_sum(exponentials, n).magnitude()) as int;
    assert(e <= 2 * r) by (nonlinear_arith)
        requires
            (0x100_0000 - 2 * n) * e <= 0x100_0000 * r,
            0 < n <= 1024,
            e > 0,
    ;
    lemma_weight_sum(exponentials, n);
    lemma_weight_tail(exponentials, MAX_WEIGHTS as nat);
    lemma_weight_error(
        exact_sum(weight_numbers(exponentials), n) as int,
        r,
        e,
        unit as int,
        n as int,
    );
}

} // verus!
