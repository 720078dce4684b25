//! The passes that a device runs over an image, and the textures between them.
//!
//! Textures are numbered: 0 is the input, and the textures that a plan asks for follow
//! from 1 in the order in which they stand in it.

use crate::float::convert::less;
use crate::float::numbers::zero;
use crate::float::repr::F32;
use crate::gpu::boxes::{box_radius, box_sizes, boxes_fit, boxes_for_gauss_3pass, radius_of_box};
use crate::gpu::params::{
    are_words_in_memory, box_params, box_words, gaussian_params, gaussian_words, resize_params,
    resize_words,
};
use crate::gpu::weights::{
    are_shader_exponentials, precompute_gaussian_weights, weight_words, weights_have_room,
};
use vstd::prelude::*;

verus! {

/// The programs that a device can run.
#[derive(Clone, Copy, Debug, PartialEq, Eq, Structural)]
pub enum Shader {
    /// Makes an image smaller
    Downsample,
    /// Makes an image larger
    Upsample,
    /// One direction of a box blur
    BoxBlur,
    /// One direction of a Gaussian blur
    GaussianBlur,
}

/// A texture that a plan asks for. Every texture is written by a shader.
#[derive(Clone, Copy, Debug, PartialEq, Eq, Structural)]
pub struct TexturePlan {
    pub width: u32,
    pub height: u32,
    /// Whether a shader reads it
    pub sampled: bool,
    /// Whether it can be copied out of the device
    pub copied: bool,
}

/// One run of a shader.
pub struct PassPlan {
    pub shader: Shader,
    /// The number of the texture that is read
    pub input: usize,
    /// The number of the texture that is written
    pub output: usize,
    /// The bytes of the parameters
    pub params: Vec<u8>,
    /// The number of workgroups across
    pub dispatch_x: u32,
    /// The number of workgroups down
    pub dispatch_y: u32,
}

/// All that a device does to an image.
pub struct GpuPlan {
    pub textures: Vec<TexturePlan>,
    /// The bytes of the weights, where a shader needs any
    pub weights: Option<Vec<u8>>,
    pub passes: Vec<PassPlan>,
    /// The number of the texture that holds the result
    pub output: usize,
}

/// What a pass is.
pub struct PassSpec {
    pub shader: Shader,
    pub input: int,
    pub output: int,
    pub words: Seq<u32>,
    pub dispatch_x: int,
    pub dispatch_y: int,
}

/// Whether a pass is the one that is described.
pub open spec fn is_pass(pass: PassPlan, s: PassSpec) -> bool {
    &&& pass.shader == s.shader
    &&& pass.input == s.input
    &&& pass.output == s.output
    &&& are_words_in_memory(pass.params@, s.words)
    &&& pass.dispatch_x == s.dispatch_x
    &&& pass.dispatch_y == s.dispatch_y
}

/// Whether passes are those that are described, in the same order.
pub open spec fn are_passes(passes: Seq<PassPlan>, specs: Seq<PassSpec>) -> bool {
    &&& passes.len() == specs.len()
    &&& forall|i: int| 0 <= i < passes.len() ==> is_pass(#[trigger] passes[i], specs[i])
}

/// The number of groups of `size` that cover `n`.
pub open spec fn groups(n: int, size: int) -> int {
    (n + size - 1) / size
}

/// The workgroups of a pass across the rows (0) or down the columns (1): 256 pixels each
/// along the direction of the pass, one across it.
pub open spec fn line_dispatch(width: int, height: int, direction: int) -> (int, int) {
    if direction == 0 {
        (groups(width, 256), height)
    } else {
        (width, groups(height, 256))
    }
}

/// A pass of the box blur.
pub open spec fn box_pass(
    input: int,
    output: int,
    width: u32,
    height: u32,
    radius: u32,
    blur_alpha: bool,
    direction: u32,
) -> PassSpec {
    PassSpec {
        shader: Shader::BoxBlur,
        input,
        output,
        words: box_words(width, height, radius, blur_alpha, direction),
        dispatch_x: line_dispatch(width as int, height as int, direction as int).0,
        dispatch_y: line_dispatch(width as int, height as int, direction as int).1,
    }
}

/// A pass of the Gaussian blur.
pub open spec fn gaussian_pass(
    input: int,
    output: int,
    width: u32,
    height: u32,
    radius: u32,
    blur_alpha: bool,
    direction: u32,
    sigma: F32,
) -> PassSpec {
    PassSpec {
        shader: Shader::GaussianBlur,
        input,
        output,
        words: gaussian_words(width, height, radius, blur_alpha, direction, sigma),
        dispatch_x: line_dispatch(width as int, height as int, direction as int).0,
        dispatch_y: line_dispatch(width as int, height as int, direction as int).1,
    }
}

/// A pass that changes the size of an image, in blocks of eight by eight pixels.
pub open spec fn resize_pass(
    shader: Shader,
    input: int,
    output: int,
    src_width: u32,
    src_height: u32,
    dst_width: u32,
    dst_height: u32,
) -> PassSpec {
    PassSpec {
        shader,
        input,
        output,
        words: resize_words(src_width, src_height, dst_width, dst_height),
        dispatch_x: groups(dst_width as int, 8),
        dispatch_y: groups(dst_height as int, 8),
    }
}

/// The radii of the three boxes for a sigma.
pub open spec fn box_radii(sigma: F32) -> Seq<u32> {
    Seq::new(3, |i: int| box_radius(box_sizes(sigma)[i] as int))
}

/// The six passes of a box blur, which go across and down once for each box. They start
/// at the texture `from`, go to and fro between `one` and `two`, and end at `to`.
pub open spec fn box_blur_passes(
    from: int,
    one: int,
    two: int,
    to: int,
    width: u32,
    height: u32,
    radii: Seq<u32>,
    blur_alpha: bool,
) -> Seq<PassSpec> {
    seq![
        box_pass(from, one, width, height, radii[0], blur_alpha, 0),
        box_pass(one, two, width, height, radii[0], blur_alpha, 1),
        box_pass(two, one, width, height, radii[1], blur_alpha, 0),
        box_pass(one, two, width, height, radii[1], blur_alpha, 1),
        box_pass(two, one, width, height, radii[2], blur_alpha, 0),
        box_pass(one, to, width, height, radii[2], blur_alpha, 1),
    ]
}

/// Whether the numbers of workgroups for an image of this size fit into 32 bits.
pub open spec fn can_dispatch(width: int, height: int) -> bool {
    width + 255 <= u32::MAX && height + 255 <= u32::MAX
}

/// The passes of the Gaussian blur: across the rows, then down the columns.
pub open spec fn gaussian_passes(
    width: u32,
    height: u32,
    radius: u32,
    blur_alpha: bool,
    sigma: F32,
) -> Seq<PassSpec> {
    seq![
        gaussian_pass(0, 1, width, height, radius, blur_alpha, 0, sigma),
        gaussian_pass(1, 2, width, height, radius, blur_alpha, 1, sigma),
    ]
}

/// Whether a plan is that of the Gaussian blur, where `exp` gives the exponentials of the
/// weights.
pub open spec fn is_gaussian_plan<E: Fn(F32) -> F32>(
    plan: GpuPlan,
    exp: E,
    sigma: F32,
    radius: u32,
    blur_alpha: bool,
    width: u32,
    height: u32,
) -> bool {
    &&& plan.textures@ == seq![
        TexturePlan { width, height, sampled: true, copied: false },
        TexturePlan { width, height, sampled: true, copied: true },
    ]
    &&& plan.weights matches Some(weights) && exists|exponentials: Seq<F32>| #[trigger]
        are_shader_exponentials(exp, radius as int, sigma, exponentials) && are_words_in_memory(
            weights@,
            weight_words(exponentials),
        )
    &&& are_passes(plan.passes@, gaussian_passes(width, height, radius, blur_alpha, sigma))
    &&& plan.output == 2
}

/// Whether a plan is that of the box blur.
pub open spec fn is_box_plan(
    plan: GpuPlan,
    sigma: F32,
    blur_alpha: bool,
    width: u32,
    height: u32,
) -> bool {
    &&& plan.textures@ == seq![
        TexturePlan { width, height, sampled: true, copied: true },
        TexturePlan { width, height, sampled: true, copied: false },
        TexturePlan { width, height, sampled: true, copied: true },
    ]
    &&& plan.weights is None
    &&& are_passes(
        plan.passes@,
        box_blur_passes(0, 1, 2, 3, width, height, box_radii(sigma), blur_alpha),
    )
    &&& plan.output == 3
}

/// The passes of the box blur of an image made smaller: down in size, six passes there, and
/// back up in size.
pub open spec fn downsample_passes(
    factor: u32,
    adjusted_sigma: F32,
    blur_alpha: bool,
    width: u32,
    height: u32,
) -> Seq<PassSpec> {
    let small_width = groups(width as int, factor as int) as u32;
    let small_height = groups(height as int, factor as int) as u32;
    seq![
        resize_pass(Shader::Downsample, 0, 1, width, height, small_width, small_height),
    ] + box_blur_passes(
        1,
        2,
        3,
        4,
        small_width,
        small_height,
        box_radii(adjusted_sigma),
        blur_alpha,
    ) + seq![resize_pass(Shader::Upsample, 4, 5, small_width, small_height, width, height)]
}

/// Whether a plan is that of the box blur of an image made smaller.
pub open spec fn is_downsample_plan(
    plan: GpuPlan,
    factor: u32,
    adjusted_sigma: F32,
    blur_alpha: bool,
    width: u32,
    height: u32,
) -> bool {
    let small_width = groups(width as int, factor as int) as u32;
    let small_height = groups(height as int, factor as int) as u32;
    &&& plan.textures@ == seq![
        TexturePlan { width: small_width, height: small_height, sampled: true, copied: true },
        TexturePlan { width: small_width, height: small_height, sampled: true, copied: false },
        TexturePlan { width: small_width, height: small_height, sampled: true, copied: false },
        TexturePlan { width: small_width, height: small_height, sampled: true, copied: true },
        TexturePlan { width, height, sampled: false, copied: true },
    ]
    &&& plan.weights is None
    &&& are_passes(
        plan.passes@,
        downsample_passes(factor, adjusted_sigma, blur_alpha, width, height),
    )
    &&& plan.output == 5
}

/// Workgroups cover what they are counted for, and none of them is spare.
pub proof fn law_groups_cover(n: int, size: int)
    requires
        n >= 0,
        size > 0,
    ensures
        n <= groups(n, size) * size < n + size,
{
    let g = groups(n, size);
    vstd::arithmetic::div_mod::lemma_fundamental_div_mod(n + size - 1, size);
    assert(g * size == size * g) by (nonlinear_arith);
}

/// Whether every pass reads what the pass before it has written and writes somewhere else,
/// from the input to the texture `output`.
pub open spec fn are_chained(passes: Seq<PassSpec>, output: int) -> bool {
    &&& passes.len() > 0
    &&& passes[0].input == 0
    &&& passes.last().output == output
    &&& forall|i: int, j: int|
        0 <= i < passes.len() && j == i + 1 && j < passes.len() ==> (#[trigger] passes[j]).input
            == (#[trigger] passes[i]).output
    &&& forall|i: int|
        0 <= i < passes.len() ==> (#[trigger] passes[i]).input != passes[i].output
}

/// The passes of a box blur lead from one texture to another.
proof fn lemma_box_blur_is_chained(
    from: int,
    one: int,
    two: int,
    to: int,
    width: u32,
    height: u32,
    radii: Seq<u32>,
    blur_alpha: bool,
)
    requires
        from != one,
        one != two,
        one != to,
    ensures
        ({
            let passes = box_blur_passes(from, one, two, to, width, height, radii, blur_alpha);
            &&& passes.len() == 6
            &&& passes[0].input == from
            &&& passes[5].output == to
            &&& forall|i: int, j: int|
                0 <= i < 5 && j == i + 1 ==> (#[trigger] passes[j]).input
                    == (#[trigger] passes[i]).output
            &&& forall|i: int| 0 <= i < 6 ==> (#[trigger] passes[i]).input != passes[i].output
        }),
{
    let passes = box_blur_passes(from, one, two, to, width, height, radii, blur_alpha);
    assert(passes[0].input == from && passes[0].output == one);
    assert(passes[1].input == one && passes[1].output == two);
    assert(passes[2].input == two && passes[2].output == one);
    assert(passes[3].input == one && passes[3].output == two);
    assert(passes[4].input == two && passes[4].output == one);
    assert(passes[5].input == one && passes[5].output == to);
}

/// The passes of the Gaussian blur are chained.
pub proof fn law_gaussian_passes_are_chained(
    width: u32,
    height: u32,
    radius: u32,
    blur_alpha: bool,
    sigma: F32,
)
    ensures
        are_chained(gaussian_passes(width, height, radius, blur_alpha, sigma), 2),
{
}

/// The passes of the box blur are chained.
pub proof fn law_box_passes_are_chained(
    width: u32,
    height: u32,
    radii: Seq<u32>,
    blur_alpha: bool,
)
    ensures
        are_chained(box_blur_passes(0, 1, 2, 3, width, height, radii, blur_alpha), 3),
{
    lemma_box_blur_is_chained(0, 1, 2, 3, width, height, radii, blur_alpha);
}

/// The passes of the box blur of an image made smaller are chained.
pub proof fn law_downsample_passes_are_chained(
    factor: u32,
    adjusted_sigma: F32,
    blur_alpha: bool,
    width: u32,
    height: u32,
)
    ensures
        are_chained(downsample_passes(factor, adjusted_sigma, blur_alpha, width, height), 5),
{
    let small_width = groups(width as int, factor as int) as u32;
    let small_height = groups(height as int, factor as int) as u32;
    let radii = box_radii(adjusted_sigma);
    let middle = box_blur_passes(1, 2, 3, 4, small_width, small_height, radii, blur_alpha);
    let passes = downsample_passes(factor, adjusted_sigma, blur_alpha, width, height);
    lemma_box_blur_is_chained(1, 2, 3, 4, small_width, small_height, radii, blur_alpha);
    assert(passes.len() == 8);
    assert forall|i: int| 1 <= i < 7 implies (#[trigger] passes[i]) == middle[i - 1] by {}
    assert(passes[0].input == 0 && passes[0].output == 1);
    assert(passes[7].input == 4 && passes[7].output == 5);
    assert forall|i: int, j: int| 0 <= i < 7 && j == i + 1 implies (#[trigger] passes[j]).input == (
    #[trigger] passes[i]).output by {
        if 1 <= i < 6 {
            assert(middle[i].input == middle[i - 1].output);
        }
    }
}

/// The number of groups of `size` that cover `n`.
fn count_groups(n: u32, size: u32) -> (r: u32)
    requires
        0 < size <= 256,
        n + 255 <= u32::MAX,
    ensures
        r == groups(n as int, size as int),
        r <= n,
{
    let r = (n + (size - 1)) / size;
    assert(r <= n) by (nonlinear_arith)
        requires
            r == (n + (size - 1)) / size as int,
            size > 0,
    ;
    r
}

/// The workgroups of a pass across the rows (0) or down the columns (1).
fn count_lines(width: u32, height: u32, direction: u32) -> (r: (u32, u32))
    requires
        can_dispatch(width as int, height as int),
    ensures
        (r.0 as int, r.1 as int) == line_dispatch(width as int, height as int, direction as int),
{
    if direction == 0 {
        (count_groups(width, 256), height)
    } else {
        (width, count_groups(height, 256))
    }
}

/// A pass of the box blur.
fn plan_box_pass(
    input: usize,
    output: usize,
    width: u32,
    height: u32,
    radius: u32,
    blur_alpha: bool,
    direction: u32,
) -> (pass: PassPlan)
    requires
        can_dispatch(width as int, height as int),
    ensures
        is_pass(
            pass,
            box_pass(input as int, output as int, width, height, radius, blur_alpha, direction),
        ),
{
    let params = box_params(width, height, radius, blur_alpha, direction);
    let (dispatch_x, dispatch_y) = count_lines(width, height, direction);
    PassPlan { shader: Shader::BoxBlur, input, output, params, dispatch_x, dispatch_y }
}

/// A pass of the Gaussian blur.
fn plan_gaussian_pass(
    input: usize,
    output: usize,
    width: u32,
    height: u32,
    radius: u32,
    blur_alpha: bool,
    direction: u32,
    sigma: F32,
) -> (pass: PassPlan)
    requires
        can_dispatch(width as int, height as int),
    ensures
        is_pass(
            pass,
            gaussian_pass(
                input as int,
                output as int,
                width,
                height,
                radius,
                blur_alpha,
                direction,
                sigma,
            ),
        ),
{
    let params = gaussian_params(width, height, radius, blur_alpha, direction, sigma);
    let (dispatch_x, dispatch_y) = count_lines(width, height, direction);
    PassPlan { shader: Shader::GaussianBlur, input, output, params, dispatch_x, dispatch_y }
}

/// A pass that changes the size of an image.
fn plan_resize_pass(
    shader: Shader,
    input: usize,
    output: usize,
    src_width: u32,
    src_height: u32,
    dst_width: u32,
    dst_height: u32,
) -> (pass: PassPlan)
    requires
        can_dispatch(dst_width as int, dst_height as int),
    ensures
        is_pass(
            pass,
            resize_pass(
                shader,
                input as int,
                output as int,
                src_width,
                src_height,
                dst_width,
                dst_height,
            ),
        ),
{
    PassPlan {
        shader,
        input,
        output,
        params: resize_params(src_width, src_height, dst_width, dst_height),
        dispatch_x: count_groups(dst_width, 8),
        dispatch_y: count_groups(dst_height, 8),
    }
}

/// The six passes of a box blur, put behind the passes that are there.
fn plan_box_blur(
    passes: &mut Vec<PassPlan>,
    from: usize,
    one: usize,
    two: usize,
    to: usize,
    width: u32,
    height: u32,
    sigma: F32,
    blur_alpha: bool,
)
    requires
        can_dispatch(width as int, height as int),
        less(zero(), sigma),
        boxes_fit(sigma),
    ensures
        final(passes)@.len() == old(passes)@.len() + 6,
        final(passes)@.take(old(passes)@.len() as int) == old(passes)@,
        are_passes(
            final(passes)@.skip(old(passes)@.len() as int),
            box_blur_passes(
                from as int,
                one as int,
                two as int,
                to as int,
                width,
                height,
                box_radii(sigma),
                blur_alpha,
            ),
        ),
{
    let sizes = boxes_for_gauss_3pass(sigma);
    let r0 = radius_of_box(sizes[0]);
    let r1 = radius_of_box(sizes[1]);
    let r2 = radius_of_box(sizes[2]);
    passes.push(plan_box_pass(from, one, width, height, r0, blur_alpha, 0));
    passes.push(plan_box_pass(one, two, width, height, r0, blur_alpha, 1));
    passes.push(plan_box_pass(two, one, width, height, r1, blur_alpha, 0));
    passes.push(plan_box_pass(one, two, width, height, r1, blur_alpha, 1));
    passes.push(plan_box_pass(two, one, width, height, r2, blur_alpha, 0));
    passes.push(plan_box_pass(one, to, width, height, r2, blur_alpha, 1));
    proof {
        assert(box_radii(sigma) =~= seq![r0, r1, r2]);
        assert(passes@.take(old(passes)@.len() as int) =~= old(passes)@);
    }
}

/// The plan of the true Gaussian blur (for small sigmas)
pub fn plan_gaussian_blur<E: Fn(F32) -> F32>(
    sigma: F32,
    radius: u32,
    blur_alpha: bool,
    width: u32,
    height: u32,
    exp: &E,
) -> (plan: GpuPlan)
    requires
        can_dispatch(width as int, height as int),
        weights_have_room(radius as int),
        forall|x: F32| call_requires(*exp, (x,)),
    ensures
        is_gaussian_plan(plan, *exp, sigma, radius, blur_alpha, width, height),
{
    let weights = precompute_gaussian_weights(radius, sigma, exp);
    let textures: Vec<TexturePlan> = vec![
        TexturePlan { width, height, sampled: true, copied: false },
        TexturePlan { width, height, sampled: true, copied: true },
    ];
    let mut passes: Vec<PassPlan> = Vec::new();
    passes.push(plan_gaussian_pass(0, 1, width, height, radius, blur_alpha, 0, sigma));
    passes.push(plan_gaussian_pass(1, 2, width, height, radius, blur_alpha, 1, sigma));
    let plan = GpuPlan { textures, weights: Some(weights), passes, output: 2 };
    assert(plan.textures@ =~= seq![
        TexturePlan { width, height, sampled: true, copied: false },
        TexturePlan { width, height, sampled: true, copied: true },
    ]);
    plan
}

/// The plan of the 3-pass box blur approximation
pub fn plan_box_blur_3pass(sigma: F32, blur_alpha: bool, width: u32, height: u32) -> (plan: GpuPlan)
    requires
        can_dispatch(width as int, height as int),
        less(zero(), sigma),
        boxes_fit(sigma),
    ensures
        is_box_plan(plan, sigma, blur_alpha, width, height),
{
    let textures: Vec<TexturePlan> = vec![
        TexturePlan { width, height, sampled: true, copied: true },
        TexturePlan { width, height, sampled: true, copied: false },
        TexturePlan { width, height, sampled: true, copied: true },
    ];
    let mut passes: Vec<PassPlan> = Vec::new();
    plan_box_blur(&mut passes, 0, 1, 2, 3, width, height, sigma, blur_alpha);
    assert(passes@.skip(0) =~= passes@);
    let plan = GpuPlan { textures, weights: None, passes, output: 3 };
    assert(plan.textures@ =~= seq![
        TexturePlan { width, height, sampled: true, copied: true },
        TexturePlan { width, height, sampled: true, copied: false },
        TexturePlan { width, height, sampled: true, copied: true },
    ]);
    plan
}

/// The plan of the downsample -> blur -> upsample pipeline
pub fn plan_downsample_blur_upsample(
    factor: u32,
    adjusted_sigma: F32,
    blur_alpha: bool,
    width: u32,
    height: u32,
) -> (plan: GpuPlan)
    requires
        can_dispatch(width as int, height as int),
        0 < factor <= 8,
        less(zero(), adjusted_sigma),
        boxes_fit(adjusted_sigma),
    ensures
        is_downsample_plan(plan, factor, adjusted_sigma, blur_alpha, width, height),
{
    let small_width = count_groups(width, factor);
    let small_height = count_groups(height, factor);
    let textures: Vec<TexturePlan> = vec![
        TexturePlan { width: small_width, height: small_height, sampled: true, copied: true },
        TexturePlan { width: small_width, height: small_height, sampled: true, copied: false },
        TexturePlan { width: small_width, height: small_height, sampled: true, copied: false },
        TexturePlan { width: small_width, height: small_height, sampled: true, copied: true },
        TexturePlan { width, height, sampled: false, copied: true },
    ];
    let mut passes: Vec<PassPlan> = Vec::new();
    passes.push(
        plan_resize_pass(Shader::Downsample, 0, 1, width, height, small_width, small_height),
    );
    let ghost first = passes@;
    plan_box_blur(
        &mut passes,
        1,
        2,
        3,
        4,
        small_width,
        small_height,
        adjusted_sigma,
        blur_alpha,
    );
    let ghost middle = passes@;
    passes.push(
        plan_resize_pass(Shader::Upsample, 4, 5, small_width, small_height, width, height),
    );
    proof {
        let want = downsample_passes(factor, adjusted_sigma, blur_alpha, width, height);
        assert(want.len() == 8);
        assert(middle.take(1)[0] == first[0]);
        assert forall|i: int| 0 <= i < 8 implies is_pass(#[trigger] passes@[i], want[i]) by {
            if 1 <= i < 7 {
                assert(middle.skip(1)[i - 1] == passes@[i]);
            }
        }
    }
    let plan = GpuPlan { textures, weights: None, passes, output: 5 };
    assert(plan.textures@ =~= seq![
        TexturePlan { width: small_width, height: small_height, sampled: true, copied: true },
        TexturePlan { width: small_width, height: small_height, sampled: true, copied: false },
        TexturePlan { width: small_width, height: small_height, sampled: true, copied: false },
        TexturePlan { width: small_width, height: small_height, sampled: true, copied: true },
        TexturePlan { width, height, sampled: false, copied: true },
    ]);
    plan
}

} // verus!
