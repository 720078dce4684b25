//! What the plans of the blurs tell a device, read from the plans themselves.

use crate::float::convert::{law_less_is_by_value, less, of_int};
use crate::float::laws::law_at_most_is_by_value;
use crate::float::numbers::zero;
use crate::float::order::lemma_of_int_exact;
use crate::float::repr::{grid, F32};
use crate::gpu::boxes::{box_radius, box_sizes, law_box_sizes, lemma_boxes_fit, lower_box};
use crate::gpu::params::{are_words_in_memory, big_endian, little_endian, word_byte};
use crate::gpu::plan::{
    box_blur_passes, box_radii, downsample_passes, gaussian_pass, gaussian_passes, groups,
    is_downsample_plan, is_gaussian_plan, is_pass, law_groups_cover, GpuPlan, PassPlan, Shader,
};
use crate::gpu::processor::{
    law_full_size_boxes_fit, BlurJob, GpuAction, GpuEvent, GpuGaussianBlur,
};
use crate::gpu::strategy::{law_strategy_is_by_value, strategy_for, BlurStrategy};
use crate::gpu::variance::lemma_lower_box;
use crate::gpu::weights::{are_shader_exponentials, weight_words};
use crate::pixel::Pixel;
use vstd::arithmetic::power2::{lemma_pow2_pos, pow2};
use vstd::prelude::*;

verus! {

/// The value of four bytes, from the lowest or from the highest.
pub open spec fn held_word(bytes: Seq<u8>, k: int, low_first: bool) -> int {
    if low_first {
        bytes[4 * k] + 0x100 * bytes[4 * k + 1] + 0x1_0000 * bytes[4 * k + 2] + 0x100_0000
            * bytes[4 * k + 3]
    } else {
        bytes[4 * k + 3] + 0x100 * bytes[4 * k + 2] + 0x1_0000 * bytes[4 * k + 1] + 0x100_0000
            * bytes[4 * k]
    }
}

/// Whether bytes hold words, all of them in the same order of bytes.
#[verifier::opaque]
pub open spec fn hold_words(bytes: Seq<u8>, words: Seq<u32>) -> bool {
    &&& bytes.len() == 4 * words.len()
    &&& {
        ||| forall|k: int|
            0 <= k < words.len() ==> held_word(bytes, k, true) == #[trigger] words[k]
        ||| forall|k: int|
            0 <= k < words.len() ==> held_word(bytes, k, false) == #[trigger] words[k]
    }
}

/// The four bytes of a word.
proof fn lemma_word_of_bytes(w: u32)
    ensures
        word_byte(w, 0) + 0x100 * word_byte(w, 1) + 0x1_0000 * word_byte(w, 2) + 0x100_0000
            * word_byte(w, 3) == w,
{
}

/// One of the words that bytes hold.
pub proof fn lemma_held_word(words: Seq<u32>, k: int)
    requires
        0 <= k < words.len(),
    ensures
        held_word(little_endian(words), k, true) == words[k],
        held_word(big_endian(words), k, false) == words[k],
{
    lemma_word_of_bytes(words[k]);
    assert((4 * k) / 4 == k && (4 * k) % 4 == 0);
    assert((4 * k + 1) / 4 == k && (4 * k + 1) % 4 == 1);
    assert((4 * k + 2) / 4 == k && (4 * k + 2) % 4 == 2);
    assert((4 * k + 3) / 4 == k && (4 * k + 3) % 4 == 3);
}

/// The bytes that words have in memory hold these words.
pub proof fn law_memory_holds_words(bytes: Seq<u8>, words: Seq<u32>)
    requires
        are_words_in_memory(bytes, words),
    ensures
        hold_words(bytes, words),
{
    reveal(hold_words);
    let low_first = bytes == little_endian(words);
    assert forall|k: int| 0 <= k < words.len() implies held_word(bytes, k, low_first)
        == #[trigger] words[k] by {
        lemma_held_word(words, k);
    }
}

/// Whether the workgroups of a pass reach every pixel of an image, 256 of them along its
/// direction and one across it, with no workgroup to spare.
pub open spec fn covers_lines(pass: PassPlan, width: u32, height: u32, down: bool) -> bool {
    if down {
        &&& pass.dispatch_x == width
        &&& height <= 256 * pass.dispatch_y < height + 256
    } else {
        &&& width <= 256 * pass.dispatch_x < width + 256
        &&& pass.dispatch_y == height
    }
}

/// Whether a pass blurs an image of this size in one direction with a box of this size.
pub open spec fn blurs_with_box(
    pass: PassPlan,
    width: u32,
    height: u32,
    size: int,
    blur_alpha: bool,
    down: bool,
) -> bool {
    &&& pass.shader == Shader::BoxBlur
    &&& hold_words(
        pass.params@,
        seq![
            width,
            height,
            ((size - 1) / 2) as u32,
            if blur_alpha { 1u32 } else { 0u32 },
            if down { 1u32 } else { 0u32 },
            0,
            0,
            0,
            0,
            0,
            0,
            0,
        ],
    )
    &&& covers_lines(pass, width, height, down)
}

/// Whether a pass makes an image of the one size from one of the other, in blocks of eight by
/// eight pixels.
pub open spec fn resizes(
    pass: PassPlan,
    shader: Shader,
    from_width: u32,
    from_height: u32,
    to_width: u32,
    to_height: u32,
) -> bool {
    &&& pass.shader == shader
    &&& hold_words(
        pass.params@,
        seq![from_width, from_height, to_width, to_height, 0, 0, 0, 0, 0, 0, 0, 0],
    )
    &&& to_width <= 8 * pass.dispatch_x < to_width + 8
    &&& to_height <= 8 * pass.dispatch_y < to_height + 8
}

/// Whether the passes of a plan lead from the input to the output: each reads what the one before
/// it wrote and writes to another texture of the plan, textures that are read can be sampled, and
/// the last one can be copied out.
pub open spec fn leads_through(plan: GpuPlan) -> bool {
    let n = plan.passes@.len();
    let textures = plan.textures@;
    &&& n > 0
    &&& plan.passes@[0].input == 0
    &&& forall|i: int|
        0 < i < n ==> (#[trigger] plan.passes@[i]).input == plan.passes@[i - 1].output
    &&& forall|i: int|
        0 <= i < n ==> {
            let pass = #[trigger] plan.passes@[i];
            &&& pass.input != pass.output
            &&& 1 <= pass.output <= textures.len()
            &&& pass.input > 0 ==> textures[pass.input - 1].sampled
        }
    &&& plan.output == plan.passes@[n - 1].output
    &&& textures[plan.output - 1].copied
}

/// Whether the textures of a plan can be sampled and copied as listed.
pub open spec fn has_textures(plan: GpuPlan, sampled: Seq<bool>, copied: Seq<bool>) -> bool {
    &&& plan.textures@.len() == sampled.len() == copied.len()
    &&& forall|i: int|
        0 <= i < sampled.len() ==> (#[trigger] plan.textures@[i]).sampled == sampled[i]
            && plan.textures@[i].copied == copied[i]
}

/// Whether a pass writes to a texture of this size.
pub open spec fn writes(plan: GpuPlan, pass: PassPlan, width: u32, height: u32) -> bool {
    let texture = plan.textures@[pass.output - 1];
    texture.width == width && texture.height == height
}

/// Half of a box of an odd size.
proof fn lemma_half_box(size: int)
    requires
        0 < size < 0x8000_0000,
        size % 2 == 1,
    ensures
        box_radius(size) == ((size - 1) / 2) as u32,
        2 * box_radius(size) + 1 == size,
{
}

/// A box blur of six passes, behind others or alone.
proof fn lemma_six_passes(
    passes: Seq<PassPlan>,
    start: int,
    from: int,
    one: int,
    two: int,
    to: int,
    width: u32,
    height: u32,
    sigma: F32,
    blur_alpha: bool,
    i: int,
)
    requires
        0 <= start,
        start + 6 <= passes.len(),
        0 <= i < 6,
        forall|k: int|
            start <= k < start + 6 ==> is_pass(
                #[trigger] passes[k],
                box_blur_passes(
                    from,
                    one,
                    two,
                    to,
                    width,
                    height,
                    box_radii(sigma),
                    blur_alpha,
                )[k - start],
            ),
        less(zero(), sigma),
        box_sizes(sigma)[i / 2] < 0x8000_0000,
    ensures
        blurs_with_box(
            passes[start + i],
            width,
            height,
            box_sizes(sigma)[i / 2] as int,
            blur_alpha,
            i % 2 == 1,
        ),
        passes[start + i].input == (if i == 0 {
            from
        } else if i % 2 == 1 {
            one
        } else {
            two
        }),
        passes[start + i].output == (if i == 5 {
            to
        } else if i % 2 == 1 {
            two
        } else {
            one
        }),
{
    law_box_sizes(sigma);
    assert(0 <= i / 2 < 3);
    let size = box_sizes(sigma)[i / 2] as int;
    lemma_half_box(size);
    let pass = passes[start + i];
    let specs = box_blur_passes(from, one, two, to, width, height, box_radii(sigma), blur_alpha);
    assert(is_pass(passes[start + i], specs[start + i - start]));
    let s = specs[i];
    law_memory_holds_words(pass.params@, s.words);
    assert(box_radii(sigma)[i / 2] == box_radius(size));
    law_groups_cover(width as int, 256);
    law_groups_cover(height as int, 256);
    let want = seq![
        width,
        height,
        ((size - 1) / 2) as u32,
        if blur_alpha { 1u32 } else { 0u32 },
        if i % 2 == 1 { 1u32 } else { 0u32 },
        0,
        0,
        0,
        0,
        0,
        0,
        0,
    ];
    if i == 0 || i == 2 || i == 4 {
        assert(s.words =~= want);
    } else {
        assert(i == 1 || i == 3 || i == 5);
        assert(s.words =~= want);
    }
}

/// Between the smallest sigma of a plan with boxes and 32, the image is blurred at full size by
/// three boxes, each across the rows and then down the columns. Every pass says how large the
/// image is, how far the box reaches to either side, in which direction it goes, and that alpha is
/// blurred if and only if it is to be.
pub proof fn law_box_plan_says_all<E: Fn(F32) -> F32>(
    blur: GpuGaussianBlur,
    exp: E,
    image: Seq<Seq<Pixel>>,
    event: GpuEvent,
    job: BlurJob,
)
    requires
        blur.follows(exp, image, event, GpuAction::Blur { job }),
        !blur.spec_sigma().negative(),
        blur.spec_sigma().is_finite(),
        2 * pow2(149) < grid(blur.spec_sigma().magnitude()) <= 32 * pow2(149),
    ensures
        job.width == image[0].len(),
        job.height == image.len(),
        job.plan.weights is None,
        job.plan.passes@.len() == 6,
        leads_through(job.plan),
        has_textures(job.plan, seq![true, true, true], seq![true, false, true]),
        forall|i: int|
            0 <= i < 6 ==> {
                let pass = #[trigger] job.plan.passes@[i];
                &&& blurs_with_box(
                    pass,
                    job.width,
                    job.height,
                    box_sizes(blur.spec_sigma())[i / 2] as int,
                    blur.blurs_alpha(),
                    i % 2 == 1,
                )
                &&& writes(job.plan, pass, job.width, job.height)
            },
{
    let sigma = blur.spec_sigma();
    law_strategy_is_by_value(sigma);
    law_full_size_boxes_fit(sigma);
    let passes = job.plan.passes@;
    let (width, height) = (job.width, job.height);
    lemma_boxes_fit(sigma);
    assert forall|i: int| 0 <= i < 6 implies blurs_with_box(
        #[trigger] passes[i],
        width,
        height,
        box_sizes(sigma)[i / 2] as int,
        blur.blurs_alpha(),
        i % 2 == 1,
    ) && writes(job.plan, passes[i], width, height) && passes[i].input == (if i == 0 {
        0int
    } else if i % 2 == 1 {
        1int
    } else {
        2int
    }) && passes[i].output == (if i == 5 {
        3int
    } else if i % 2 == 1 {
        2int
    } else {
        1int
    }) by {
        assert(box_sizes(sigma)[i / 2] <= 67);
        lemma_six_passes(
            passes,
            0,
            0,
            1,
            2,
            3,
            width,
            height,
            sigma,
            blur.blurs_alpha(),
            i,
        );
        assert(passes[0 + i] == passes[i]);
    }
}

/// The passes of a plan that makes an image smaller, one by one.
proof fn lemma_downsample_passes(
    plan: GpuPlan,
    factor: u32,
    adjusted_sigma: F32,
    blur_alpha: bool,
    width: u32,
    height: u32,
    small_width: u32,
    small_height: u32,
)
    requires
        is_downsample_plan(plan, factor, adjusted_sigma, blur_alpha, width, height),
        small_width == groups(width as int, factor as int) as u32,
        small_height == groups(height as int, factor as int) as u32,
        less(zero(), adjusted_sigma),
        forall|i: int| 0 <= i < 3 ==> (#[trigger] box_sizes(adjusted_sigma)[i]) < 0x8000_0000,
    ensures
        ({
            let passes = plan.passes@;
            &&& passes.len() == 8
            &&& resizes(passes[0], Shader::Downsample, width, height, small_width, small_height)
            &&& resizes(passes[7], Shader::Upsample, small_width, small_height, width, height)
            &&& passes[0].input == 0 && passes[0].output == 1
            &&& passes[7].input == 4 && passes[7].output == 5
            &&& forall|i: int|
                1 <= i < 7 ==> blurs_with_box(
                    #[trigger] passes[i],
                    small_width,
                    small_height,
                    box_sizes(adjusted_sigma)[(i - 1) / 2] as int,
                    blur_alpha,
                    i % 2 == 0,
                ) && passes[i].input == (if i == 1 {
                    1int
                } else if i % 2 == 0 {
                    2int
                } else {
                    3int
                }) && passes[i].output == (if i == 6 {
                    4int
                } else if i % 2 == 0 {
                    3int
                } else {
                    2int
                })
        }),
{
    let passes = plan.passes@;
    let specs = downsample_passes(factor, adjusted_sigma, blur_alpha, width, height);
    let middle = box_blur_passes(
        1,
        2,
        3,
        4,
        small_width,
        small_height,
        box_radii(adjusted_sigma),
        blur_alpha,
    );
    assert(specs.len() == 8);
    assert forall|k: int| 1 <= k < 1 + 6 implies is_pass(#[trigger] passes[k], middle[k - 1]) by {
        assert(specs[k] == middle[k - 1]);
    }
    law_groups_cover(small_width as int, 8);
    law_groups_cover(small_height as int, 8);
    law_groups_cover(width as int, 8);
    law_groups_cover(height as int, 8);
    assert(is_pass(passes[0], specs[0]) && is_pass(passes[7], specs[7]));
    law_memory_holds_words(passes[0].params@, specs[0].words);
    law_memory_holds_words(passes[7].params@, specs[7].words);
    let (w, h) = (small_width, small_height);
    assert(specs[0].words =~= seq![width, height, w, h, 0, 0, 0, 0, 0, 0, 0, 0]);
    assert(specs[7].words =~= seq![w, h, width, height, 0, 0, 0, 0, 0, 0, 0, 0]);
    assert forall|i: int| 1 <= i < 7 implies blurs_with_box(
        #[trigger] passes[i],
        small_width,
        small_height,
        box_sizes(adjusted_sigma)[(i - 1) / 2] as int,
        blur_alpha,
        i % 2 == 0,
    ) && passes[i].input == (if i == 1 {
        1int
    } else if i % 2 == 0 {
        2int
    } else {
        3int
    }) && passes[i].output == (if i == 6 {
        4int
    } else if i % 2 == 0 {
        3int
    } else {
        2int
    }) by {
        lemma_six_passes(
            passes,
            1,
            1,
            2,
            3,
            4,
            small_width,
            small_height,
            adjusted_sigma,
            blur_alpha,
            i - 1,
        );
        assert(passes[1 + (i - 1)] == passes[i]);
    }
}

/// The size of an image that is made smaller.
proof fn lemma_small_size(size: u32, factor: u32)
    requires
        factor > 0,
    ensures
        ({
            let small = groups(size as int, factor as int) as u32;
            size <= factor * small < size + factor
        }),
{
    law_groups_cover(size as int, factor as int);
    let g = groups(size as int, factor as int);
    assert(0 <= g <= size && g * factor == factor * g) by (nonlinear_arith)
        requires
            size <= g * factor < size + factor,
            factor >= 1,
            size >= 0,
    ;
}

/// Above a sigma of 32 the image is made smaller, blurred with three boxes there, and made larger
/// again. A small row or column stands for as many rows or columns as the factor says, the last
/// one perhaps for fewer; the passes between say all that they say at full size.
pub proof fn law_downsample_plan_says_all<E: Fn(F32) -> F32>(
    blur: GpuGaussianBlur,
    exp: E,
    image: Seq<Seq<Pixel>>,
    event: GpuEvent,
    job: BlurJob,
    factor: u32,
    adjusted_sigma: F32,
)
    requires
        blur.follows(exp, image, event, GpuAction::Blur { job }),
        !blur.spec_sigma().negative(),
        blur.spec_sigma().is_finite(),
        grid(blur.spec_sigma().magnitude()) > 32 * pow2(149),
        strategy_for(blur.spec_sigma()) == (BlurStrategy::Downsample { factor, adjusted_sigma }),
        forall|i: int| 0 <= i < 3 ==> (#[trigger] box_sizes(adjusted_sigma)[i]) < 0x8000_0000,
    ensures
        job.width == image[0].len(),
        job.height == image.len(),
        job.plan.weights is None,
        job.plan.passes@.len() == 8,
        leads_through(job.plan),
        has_textures(
            job.plan,
            seq![true, true, true, true, false],
            seq![true, false, false, true, true],
        ),
        ({
            let passes = job.plan.passes@;
            let small_width = job.plan.textures@[0].width;
            let small_height = job.plan.textures@[0].height;
            &&& job.width <= factor * small_width < job.width + factor
            &&& job.height <= factor * small_height < job.height + factor
            &&& resizes(
                passes[0],
                Shader::Downsample,
                job.width,
                job.height,
                small_width,
                small_height,
            )
            &&& forall|i: int|
                1 <= i < 7 ==> blurs_with_box(
                    #[trigger] passes[i],
                    small_width,
                    small_height,
                    box_sizes(adjusted_sigma)[(i - 1) / 2] as int,
                    blur.blurs_alpha(),
                    i % 2 == 0,
                )
            &&& resizes(
                passes[7],
                Shader::Upsample,
                small_width,
                small_height,
                job.width,
                job.height,
            )
            &&& forall|i: int|
                0 <= i < 7 ==> writes(
                    job.plan,
                    #[trigger] passes[i],
                    small_width,
                    small_height,
                )
            &&& writes(job.plan, passes[7], job.width, job.height)
        }),
{
    let sigma = blur.spec_sigma();
    law_strategy_is_by_value(sigma);
    let (width, height) = (job.width, job.height);
    let small_width = groups(width as int, factor as int) as u32;
    let small_height = groups(height as int, factor as int) as u32;
    lemma_small_size(width, factor);
    lemma_small_size(height, factor);
    assert(less(zero(), adjusted_sigma)) by {
        let value = adjusted_sigma.scaled();
        assert(value > 0) by (nonlinear_arith)
            requires
                value * factor == sigma.scaled(),
                sigma.scaled() > 0,
                factor > 0,
        ;
        law_less_is_by_value(zero(), adjusted_sigma);
        assert(grid(0) == 0);
    }
    lemma_downsample_passes(
        job.plan,
        factor,
        adjusted_sigma,
        blur.blurs_alpha(),
        width,
        height,
        small_width,
        small_height,
    );
}

/// Whether a pass blurs an image of this size in one direction with Gaussian weights.
pub open spec fn blurs_with_weights(
    pass: PassPlan,
    width: u32,
    height: u32,
    radius: u32,
    sigma: F32,
    blur_alpha: bool,
    down: bool,
) -> bool {
    &&& pass.shader == Shader::GaussianBlur
    &&& hold_words(
        pass.params@,
        seq![
            width,
            height,
            radius,
            if blur_alpha { 1u32 } else { 0u32 },
            if down { 1u32 } else { 0u32 },
            sigma.bits,
            0,
            0,
            0,
            0,
            0,
            0,
        ],
    )
    &&& covers_lines(pass, width, height, down)
}

proof fn lemma_gaussian_pass(
    pass: PassPlan,
    width: u32,
    height: u32,
    radius: u32,
    sigma: F32,
    blur_alpha: bool,
    down: bool,
    from: int,
    to: int,
)
    requires
        is_pass(
            pass,
            gaussian_pass(
                from,
                to,
                width,
                height,
                radius,
                blur_alpha,
                if down { 1u32 } else { 0u32 },
                sigma,
            ),
        ),
    ensures
        blurs_with_weights(pass, width, height, radius, sigma, blur_alpha, down),
{
    let direction = if down { 1u32 } else { 0u32 };
    let spec = gaussian_pass(from, to, width, height, radius, blur_alpha, direction, sigma);
    law_memory_holds_words(pass.params@, spec.words);
    law_groups_cover(width as int, 256);
    law_groups_cover(height as int, 256);
    assert(spec.words =~= seq![
        width,
        height,
        radius,
        if blur_alpha { 1u32 } else { 0u32 },
        if down { 1u32 } else { 0u32 },
        sigma.bits,
        0,
        0,
        0,
        0,
        0,
        0,
    ]);
}

/// Up to a sigma of two the image is blurred with true Gaussian weights, across the rows and then
/// down the columns. Both passes say how large the image is, how far the weights reach, in which
/// direction the pass goes, how wide the Gaussian function is, and that alpha is blurred if and
/// only if it is to be. The plan holds the weights.
pub proof fn law_gaussian_plan_says_all<E: Fn(F32) -> F32>(
    blur: GpuGaussianBlur,
    exp: E,
    image: Seq<Seq<Pixel>>,
    event: GpuEvent,
    job: BlurJob,
)
    requires
        blur.follows(exp, image, event, GpuAction::Blur { job }),
        blur.spec_sigma().is_finite(),
        blur.spec_sigma().negative() || grid(blur.spec_sigma().magnitude()) <= 2 * pow2(149),
        0 <= blur.spec_radius() <= u32::MAX,
    ensures
        job.width == image[0].len(),
        job.height == image.len(),
        leads_through(job.plan),
        has_textures(job.plan, seq![true, true], seq![false, true]),
        job.plan.passes@.len() == 2,
        forall|i: int|
            0 <= i < 2 ==> {
                let pass = #[trigger] job.plan.passes@[i];
                &&& blurs_with_weights(
                    pass,
                    job.width,
                    job.height,
                    blur.spec_radius() as u32,
                    blur.spec_sigma(),
                    blur.blurs_alpha(),
                    i == 1,
                )
                &&& writes(job.plan, pass, job.width, job.height)
            },
        job.plan.weights matches Some(weights) && exists|exponentials: Seq<F32>| #[trigger]
            are_shader_exponentials(exp, blur.spec_radius(), blur.spec_sigma(), exponentials)
                && hold_words(weights@, weight_words(exponentials)),
{
    let sigma = blur.spec_sigma();
    let alpha = blur.blurs_alpha();
    law_strategy_is_by_value(sigma);
    let (width, height) = (job.width, job.height);
    let radius = blur.spec_radius() as u32;
    let specs = gaussian_passes(width, height, radius, alpha, sigma);
    let passes = job.plan.passes@;
    assert(is_gaussian_plan(job.plan, exp, sigma, radius, alpha, width, height));
    assert(is_pass(passes[0], specs[0]) && is_pass(passes[1], specs[1]));
    lemma_gaussian_pass(passes[0], width, height, radius, sigma, alpha, false, 0, 1);
    lemma_gaussian_pass(passes[1], width, height, radius, sigma, alpha, true, 1, 2);
    let weights = job.plan.weights->Some_0;
    let exponentials = choose|exponentials: Seq<F32>| #[trigger]
        are_shader_exponentials(exp, radius as int, sigma, exponentials) && are_words_in_memory(
            weights@,
            weight_words(exponentials),
        );
    law_memory_holds_words(weights@, weight_words(exponentials));
}

/// A plan can be made for every sigma above two and up to 8192, and for a smaller one where there
/// is room for the weights: at most 1024.
pub proof fn law_plans_are_possible(blur: GpuGaussianBlur, possible: bool)
    requires
        call_ensures(GpuGaussianBlur::is_possible, (&blur,), possible),
        blur.spec_sigma().is_finite(),
    ensures
        blur.spec_sigma().scaled() <= 2 * pow2(149) ==> (possible <==> 0 <= blur.spec_radius()
            && 2 * blur.spec_radius() + 1 <= 1024),
        2 * pow2(149) < blur.spec_sigma().scaled() <= 8192 * pow2(149) ==> possible,
{
    let sigma = blur.spec_sigma();
    law_strategy_is_by_value(sigma);
    if 32 * pow2(149) < sigma.scaled() <= 8192 * pow2(149) {
        let adjusted = strategy_for(sigma)->adjusted_sigma;
        let factor = strategy_for(sigma)->factor;
        let value = adjusted.scaled();
        lemma_pow2_pos(149);
        assert(factor == 2 || factor == 4 || factor == 8);
        assert(0 < value <= 1024 * pow2(149));
        law_less_is_by_value(zero(), adjusted);
        assert(grid(0) == 0);
        lemma_of_int_exact(1024);
        law_at_most_is_by_value(adjusted, of_int(1024));
        lemma_lower_box(adjusted);
        let w = lower_box(adjusted);
        assert(w * w <= 2049 * 2049) by (nonlinear_arith)
            requires
                w <= 2049,
        ;
    }
}

} // verus!
