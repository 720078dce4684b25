//! What the exponents and the weights of the shaders are worth, in exact numbers.

use crate::brightness::{
    are_plain, decays, exact_sum, lemma_exact_sum_bounds, lemma_running_sum_error,
};
use crate::float::arith::{product, quotient};
use crate::float::convert::of_int;
use crate::float::error::{lemma_near_same, near};
use crate::float::numbers::{one, two};
use crate::float::order::{is_plain, lemma_nearest, lemma_of_int_exact};
use crate::float::repr::{grid, lemma_grid_increases, lemma_parts_of, F32};
use crate::float::round::{lemma_nearest_exact, nearest};
use crate::gpu::params::are_words_in_memory;
use crate::gpu::plan_laws::{hold_words, law_memory_holds_words};
use crate::gpu::weights::{
    are_shader_exponentials, law_shader_weights_are_normalized, precompute_gaussian_weights,
    shader_exponent, weight_numbers, weight_words, weights_have_room, MAX_WEIGHTS,
};
use crate::kernel_laws::{
    are_exponentials_at, are_in_proportion, is_exponential_at, is_moderate, lemma_divisor_error,
    lemma_in_proportion, lemma_over_divisor, lemma_quotient_error,
};
use crate::sampling::running_sum;
use vstd::arithmetic::power2::{
    lemma2_to64, lemma_pow2_adds, lemma_pow2_pos, lemma_pow2_strictly_increases, pow2,
};
use vstd::prelude::*;

verus! {

/// The exponent at the distance `x` from the middle of the weights has the value
/// `-x^2 / (2 * sigma^2)`, but for a few roundings: multiplied by `-2 * sigma^2` it is within
/// eight parts in `2^24` of the square of the distance.
pub proof fn law_shader_exponent_is_gaussian(radius: int, sigma: F32, i: int)
    requires
        is_moderate(sigma),
        weights_have_room(radius),
        0 <= i <= 2 * radius,
    ensures
        ({
            let x = i - radius;
            let value = shader_exponent(radius, sigma, i);
            let g = grid(sigma.magnitude()) as int;
            let unit = pow2(149) as int;
            let want = x * x * (unit * unit * unit);
            let got = 2 * (g * g) * -value.scaled();
            &&& value.is_finite()
            &&& 0xff_fff8 * want <= 0x100_0000 * got <= 0x100_0008 * want
        }),
{
    let x = i - radius;
    let square = x * x;
    let unit = pow2(149) as int;
    lemma_pow2_pos(149);
    assert(0 <= square <= 0x10_0000 && (x == 0 <==> square == 0)) by (nonlinear_arith)
        requires
            square == x * x,
            -0x400 <= x <= 0x400,
    ;
    lemma_of_int_exact(square as nat);
    let top = of_int(-square);
    let m = of_int(square).magnitude();
    let g = grid(sigma.magnitude()) as int;
    if square == 0 {
        lemma_divisor_error(sigma);
        let divisor = product(product(two(), sigma), sigma);
        lemma_pow2_pos(68);
        lemma_nearest_exact(0, grid(divisor.magnitude()));
        assert(grid(0) == 0 && 0 * pow2(149) == 0);
        assert(0 * grid(divisor.magnitude()) == 0);
        lemma_nearest_exact(0, 1);
        lemma_parts_of(false, 0);
        assert(top == F32::of(false, 0)) by {
            reveal(of_int);
        }
        assert(shader_exponent(radius, sigma, i) == F32::of(false, 0)) by {
            reveal(quotient);
        }
        assert(2 * (g * g) * 0 == 0);
        assert(x * x * (unit * unit * unit) == 0) by (nonlinear_arith)
            requires
                x == 0,
        ;
    } else {
        assert(top == F32::of(true, m)) by {
            reveal(of_int);
            lemma_nearest((square as nat) * pow2(149), 1);
            lemma_parts_of(false, nearest((square as nat) * pow2(149), 1));
        }
        lemma_parts_of(true, m);
        assert(square * unit >= 0) by (nonlinear_arith)
            requires
                square >= 0,
                unit > 0,
        ;
        lemma_near_same(square * unit, 1);
        lemma_over_divisor(top, sigma, square);
    }
}

/// One weight, by its exponential and the sum of all, with one rounding.
proof fn lemma_shader_weight(exponentials: Seq<F32>, i: int)
    requires
        exponentials.len() <= MAX_WEIGHTS,
        are_plain(exponentials),
        forall|k: int|
            0 <= k < exponentials.len() ==> grid((#[trigger] exponentials[k]).magnitude()) <= pow2(
                149,
            ),
        0 <= i < exponentials.len(),
        grid(exponentials[i].magnitude()) >= pow2(89),
    ensures
        ({
            let w = grid(weight_numbers(exponentials)[i].magnitude()) as int;
            let e = grid(exponentials[i].magnitude()) as int;
            let r = grid(running_sum(exponentials, exponentials.len()).magnitude()) as int;
            &&& r > 0
            &&& near(w * r, e * pow2(149) as int, 1)
        }),
{
    let n = exponentials.len();
    let unit = pow2(149);
    lemma_exact_sum_bounds(exponentials, n, i, unit);
    lemma2_to64();
    lemma_pow2_adds(10, 149);
    lemma_pow2_adds(1, 159);
    lemma_pow2_strictly_increases(159, 270);
    lemma_pow2_pos(89);
    assert(n * unit <= 1024 * unit) by (nonlinear_arith)
        requires
            n <= 1024,
    ;
    lemma_running_sum_error(exponentials, n);
    let t = exact_sum(exponentials, n) as int;
    let total = running_sum(exponentials, n);
    let r = grid(total.magnitude()) as int;
    let e = grid(exponentials[i].magnitude()) as int;
    assert(r <= 2 * t && t <= 2 * r) by (nonlinear_arith)
        requires
            (0x100_0000 - 2 * n) * t <= 0x100_0000 * r <= (0x100_0000 + 2 * n) * t,
            0 < n <= 1024,
            t >= 0,
    ;
    lemma_pow2_adds(160, 23);
    lemma_pow2_adds(89, 149);
    lemma_pow2_strictly_increases(183, 238);
    assert(r * pow2(23) <= e * unit) by (nonlinear_arith)
        requires
            r <= pow2(160),
            pow2(89) <= e,
            pow2(160) * pow2(23) <= pow2(89) * unit,
    ;
    lemma_pow2_adds(1, 275);
    lemma_pow2_strictly_increases(149, 275);
    assert(e * unit < r * pow2(276)) by (nonlinear_arith)
        requires
            0 < e <= 2 * r,
            unit < pow2(275),
            pow2(276) == 2 * pow2(275),
    ;
    lemma_quotient_error(exponentials[i], total);
}

/// The weights of the shaders stand in the proportion of the exponentials of their exponents,
/// but for a few roundings, for exponentials of at least `2^-60`.
pub proof fn law_shader_weights_are_in_proportion(exponentials: Seq<F32>, i: int, j: int)
    requires
        exponentials.len() <= MAX_WEIGHTS,
        are_plain(exponentials),
        forall|k: int|
            0 <= k < exponentials.len() ==> grid((#[trigger] exponentials[k]).magnitude()) <= pow2(
                149,
            ),
        0 <= i < exponentials.len(),
        0 <= j < exponentials.len(),
        grid(exponentials[i].magnitude()) >= pow2(89),
        grid(exponentials[j].magnitude()) >= pow2(89),
    ensures
        ({
            let weights = weight_numbers(exponentials);
            let got = grid(weights[i].magnitude()) * grid(exponentials[j].magnitude());
            let want = grid(weights[j].magnitude()) * grid(exponentials[i].magnitude());
            0xff_fffc * want <= 0x100_0000 * got <= 0x100_0004 * want
        }),
{
    let weights = weight_numbers(exponentials);
    lemma_shader_weight(exponentials, i);
    lemma_shader_weight(exponentials, j);
    lemma_in_proportion(
        grid(weights[i].magnitude()) as int,
        grid(weights[j].magnitude()) as int,
        grid(exponentials[i].magnitude()) as int,
        grid(exponentials[j].magnitude()) as int,
        grid(running_sum(exponentials, exponentials.len()).magnitude()) as int,
        pow2(149) as int,
        1,
    );
}

/// The bytes of the weights hold 1024 numbers, of which those after the last weight are zero. The
/// weights add up to one, and each stands for the exponential of `-x^2 / (2 * sigma^2)` at its
/// distance from the middle, but for the roundings, where the exponential function falls from one
/// at zero.
pub proof fn law_shader_weights_are_gaussian<E: Fn(F32) -> F32>(
    exp: &E,
    radius: u32,
    sigma: F32,
    bytes: Vec<u8>,
)
    requires
        call_ensures(precompute_gaussian_weights::<E>, (radius, sigma, exp), bytes),
        decays(*exp),
        is_moderate(sigma),
        2 * radius + 1 <= 1024,
    ensures
        exists|words: Seq<u32>, exponentials: Seq<F32>|
            {
                let weights = Seq::new(words.len(), |i: int| F32 { bits: words[i] });
                &&& #[trigger] hold_words(bytes@, words)
                &&& words.len() == 1024
                &&& forall|i: int| 2 * radius < i < 1024 ==> (#[trigger] words[i]) == 0
                &&& near(exact_sum(weights, 1024) as int, pow2(149) as int, 8 * radius + 7)
                &&& #[trigger] are_exponentials_at(*exp, sigma, radius as int, exponentials)
                &&& are_in_proportion(weights, exponentials)
            },
{
    let r = radius as int;
    let exponentials = choose|exponentials: Seq<F32>| #[trigger]
        are_shader_exponentials(*exp, r, sigma, exponentials) && are_words_in_memory(
            bytes@,
            weight_words(exponentials),
        );
    let words = weight_words(exponentials);
    law_memory_holds_words(bytes@, words);
    assert forall|i: int| 0 <= i <= 2 * r implies is_exponential_at(
        *exp,
        sigma,
        i - r,
        #[trigger] exponentials[i],
    ) && is_plain(exponentials[i]) && exponentials[i].is_finite() && grid(
        exponentials[i].magnitude(),
    ) <= pow2(149) && (i == r ==> exponentials[i] == one()) by {
        law_shader_exponent_is_gaussian(r, sigma, i);
        let value = shader_exponent(r, sigma, i);
        assert(call_ensures(*exp, (value,), exponentials[i]));
        lemma_sign_of_exponent(r, sigma, i);
    }
    law_shader_weights_are_normalized(exponentials, r);
    let weights = Seq::new(words.len(), |i: int| F32 { bits: words[i] });
    assert(weights =~= weight_numbers(exponentials));
    assert(are_exponentials_at(*exp, sigma, r, exponentials));
    assert forall|i: int, j: int|
        0 <= i < exponentials.len() && 0 <= j < exponentials.len() && grid(
            (#[trigger] exponentials[i]).magnitude(),
        ) >= pow2(89) && grid((#[trigger] exponentials[j]).magnitude()) >= pow2(89) implies {
        let got = grid(weights[i].magnitude()) * grid(exponentials[j].magnitude());
        let want = grid(weights[j].magnitude()) * grid(exponentials[i].magnitude());
        0xff_fff8 * want <= 0x100_0000 * got <= 0x100_0008 * want
    } by {
        law_shader_weights_are_in_proportion(exponentials, i, j);
    }
}

/// An exponent is negative or zero, and zero in the middle.
proof fn lemma_sign_of_exponent(radius: int, sigma: F32, i: int)
    requires
        is_moderate(sigma),
        weights_have_room(radius),
        0 <= i <= 2 * radius,
    ensures
        shader_exponent(radius, sigma, i).negative() || shader_exponent(radius, sigma, i).is_zero(),
        i == radius ==> shader_exponent(radius, sigma, i).is_zero(),
{
    let x = i - radius;
    let value = shader_exponent(radius, sigma, i);
    let g = grid(sigma.magnitude()) as int;
    let unit = pow2(149) as int;
    law_shader_exponent_is_gaussian(radius, sigma, i);
    lemma_pow2_pos(149);
    lemma_pow2_pos(109);
    let want = x * x * (unit * unit * unit);
    let a = 2 * (g * g);
    assert(want >= 0 && a > 0 && (x == 0 ==> want == 0)) by (nonlinear_arith)
        requires
            want == x * x * (unit * unit * unit),
            a == 2 * (g * g),
            g > 0,
            unit > 0,
    {
        assert(unit * unit * unit > 0);
        assert(x * x >= 0);
    }
    let v = value.scaled();
    assert(a * -v >= 0);
    assert(v <= 0 && (x == 0 ==> v == 0)) by (nonlinear_arith)
        requires
            a * -v >= 0,
            x == 0 ==> a * -v == 0,
            a > 0,
    ;
    assert(grid(0) == 0);
    if value.magnitude() > 0 {
        lemma_grid_increases(0, value.magnitude());
    }
}

} // verus!
