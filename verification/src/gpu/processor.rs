//! The blur on a graphics processor, step by step.
//!
//! The device is driven from outside. [`GpuGaussianBlur::blur_to_bytes`] is handed what
//! happened last and says what to do next, until it says how the blur ends.

use crate::blur::is_blank;
use crate::bytes::{image_from_bytes, low_32, to_u32, unflatten};
use crate::float::convert::{at_most, less, of_int};
use crate::float::numbers::zero;
use crate::float::order::{
    lemma_of_int_exact, lemma_of_int_keeps_order, lemma_quotient_keeps_order,
    lemma_quotient_of_ints, lemma_zero_and_one,
};
use crate::float::repr::F32;
use crate::gpu::boxes::{boxes_fit, can_compute_boxes, lemma_boxes_fit};
use crate::gpu::plan::{
    can_dispatch, groups, is_box_plan, is_downsample_plan, is_gaussian_plan, plan_box_blur_3pass,
    plan_downsample_blur_upsample, plan_gaussian_blur, GpuPlan,
};
use crate::gpu::readback::{
    buffer_size, extract_rows, has_output, padded_row, padded_row_size, shows_output, unpadded,
};
use crate::gpu::strategy::{select_strategy, strategy_for, BlurStrategy};
use crate::gpu::upload::{pad_image, padded};
use crate::gpu::weights::{weights_have_room, MAX_WEIGHTS};
use crate::kernel::{choose_radius, effective_radius};
use crate::pixel::Pixel;
use crate::sampling::pixels_of;
use crate::text::{append_decimal, decimal};
use vstd::prelude::*;
use vstd::string::StringExecFns;

verus! {

/// Why a blur on a graphics processor failed.
pub enum GpuError {
    /// The image is wider than a texture can be
    WidthExceedsLimit { width: usize, limit: u32 },
    /// The image is higher than a texture can be
    HeightExceedsLimit { height: usize, limit: u32 },
    /// The mask of a variable blur has another size than the image
    MaskMismatch { mask_height: usize, mask_width: usize, height: usize, width: usize },
    /// The device wrote nothing
    WriteTestFailed,
    /// The device failed while it was tried out
    WriteTestError { reason: String },
    /// The device failed
    Device { reason: String },
}

impl GpuError {
    /// The text of the error.
    pub open spec fn text(self) -> Seq<char> {
        match self {
            GpuError::WidthExceedsLimit { width, limit } => "Image width "@ + decimal(width as nat)
                + " exceeds GPU texture dimension limit "@ + decimal(limit as nat),
            GpuError::HeightExceedsLimit { height, limit } => "Image height "@ + decimal(
                height as nat,
            ) + " exceeds GPU texture dimension limit "@ + decimal(limit as nat),
            GpuError::MaskMismatch { mask_height, mask_width, height, width } =>
                "Mask dimensions "@ + decimal(mask_height as nat) + "x"@ + decimal(
                    mask_width as nat,
                ) + " don't match image dimensions "@ + decimal(height as nat) + "x"@ + decimal(
                    width as nat,
                ),
            GpuError::WriteTestFailed =>
                "GPU write test failed - check shader compilation and texture usage"@,
            GpuError::WriteTestError { reason } => "GPU write test error: "@ + reason@,
            GpuError::Device { reason } => reason@,
        }
    }

    /// The text of the error.
    pub fn message(&self) -> (r: String)
        ensures
            r@ == self.text(),
    {
        let mut r = String::new();
        match self {
            GpuError::WidthExceedsLimit { width, limit } => {
                r.append("Image width ");
                append_decimal(&mut r, *width as u64);
                r.append(" exceeds GPU texture dimension limit ");
                append_decimal(&mut r, *limit as u64);
            },
            GpuError::HeightExceedsLimit { height, limit } => {
                r.append("Image height ");
                append_decimal(&mut r, *height as u64);
                r.append(" exceeds GPU texture dimension limit ");
                append_decimal(&mut r, *limit as u64);
            },
            GpuError::MaskMismatch { mask_height, mask_width, height, width } => {
                r.append("Mask dimensions ");
                append_decimal(&mut r, *mask_height as u64);
                r.append("x");
                append_decimal(&mut r, *mask_width as u64);
                r.append(" don't match image dimensions ");
                append_decimal(&mut r, *height as u64);
                r.append("x");
                append_decimal(&mut r, *width as u64);
            },
            GpuError::WriteTestFailed => {
                r.append("GPU write test failed - check shader compilation and texture usage");
            },
            GpuError::WriteTestError { reason } => {
                r.append("GPU write test error: ");
                r.append(reason.as_str());
            },
            GpuError::Device { reason } => {
                r.append(reason.as_str());
            },
        }
        assert(r@ =~= self.text());
        r
    }
}

/// What happened last.
pub enum GpuEvent {
    /// Nothing yet
    Start,
    /// The device has told the largest width and height of its textures
    Limit { max_texture_dimension: u32 },
    /// The test has written this buffer, or failed
    Tested { data: Result<Vec<u8>, String> },
    /// The blur has written this buffer, or failed
    Blurred { data: Result<Vec<u8>, String> },
}

/// A trial of the device: a shader that writes a pattern in blocks of eight by eight pixels.
#[derive(Clone, Copy, Debug, PartialEq, Eq, Structural)]
pub struct WriteTest {
    pub width: u32,
    pub height: u32,
    pub dispatch_x: u32,
    pub dispatch_y: u32,
    pub bytes_per_row: u32,
    pub buffer_size: u64,
}

/// A blur for the device.
pub struct BlurJob {
    /// The bytes of the input, in padded rows
    pub upload: Vec<u8>,
    pub width: u32,
    pub height: u32,
    /// The number of bytes of a row, both in the input and in the buffer that is read back
    pub bytes_per_row: u32,
    pub buffer_size: u64,
    pub plan: GpuPlan,
}

/// What to do next.
pub enum GpuAction {
    /// Nothing: this is the result
    Finish { result: Result<(Vec<u8>, usize, usize), GpuError> },
    /// Ask the device for the largest width and height of its textures
    AskLimit,
    /// Try the device out, and read the buffer back
    Test { test: WriteTest },
    /// Blur the image, and read the buffer back
    Blur { job: BlurJob },
}

/// GPU Gaussian Blur processor
pub struct GpuGaussianBlur {
    sigma: F32,
    radius: i32,
    blur_alpha: bool,
    strategy: BlurStrategy,
}

/// The smaller of a size and sixteen.
pub open spec fn test_size(n: int) -> int {
    if n < 16 {
        n
    } else {
        16
    }
}

/// The trial of the device for an image of this size, which is at most sixteen pixels wide
/// and high.
pub open spec fn write_test_for(width: int, height: int) -> WriteTest {
    let w = test_size(width);
    let h = test_size(height);
    WriteTest {
        width: w as u32,
        height: h as u32,
        dispatch_x: groups(w, 8) as u32,
        dispatch_y: groups(h, 8) as u32,
        bytes_per_row: padded_row(w) as u32,
        buffer_size: (padded_row(w) * h) as u64,
    }
}

/// Whether the sizes of an image fit into what a device counts with.
pub open spec fn fits_device(width: int, height: int) -> bool {
    &&& 4 * width + 255 <= u32::MAX
    &&& can_dispatch(width, height)
    &&& padded_row(width) * height <= usize::MAX
}

impl GpuGaussianBlur {
    #[verifier::type_invariant]
    spec fn strategy_fits(self) -> bool {
        self.strategy == strategy_for(self.sigma)
    }

    /// The width of the Gaussian function.
    pub closed spec fn spec_sigma(self) -> F32 {
        self.sigma
    }

    /// How far the kernel reaches to either side.
    pub closed spec fn spec_radius(self) -> int {
        self.radius as int
    }

    /// Whether alpha is blurred too.
    pub closed spec fn blurs_alpha(self) -> bool {
        self.blur_alpha
    }

    /// Whether a plan can be made: the shader has room for the weights, and the sizes of the
    /// boxes can be computed.
    pub open spec fn can_plan(self) -> bool {
        match strategy_for(self.spec_sigma()) {
            BlurStrategy::Gaussian => weights_have_room(self.spec_radius()),
            BlurStrategy::Box3Pass => true,
            BlurStrategy::Downsample { adjusted_sigma, .. } => less(zero(), adjusted_sigma)
                && boxes_fit(adjusted_sigma),
        }
    }

    /// Whether a plan is the one for an image of this size.
    pub open spec fn is_plan<E: Fn(F32) -> F32>(
        self,
        exp: E,
        width: u32,
        height: u32,
        plan: GpuPlan,
    ) -> bool {
        match strategy_for(self.spec_sigma()) {
            BlurStrategy::Gaussian => is_gaussian_plan(
                plan,
                exp,
                self.spec_sigma(),
                self.spec_radius() as u32,
                self.blurs_alpha(),
                width,
                height,
            ),
            BlurStrategy::Box3Pass => is_box_plan(
                plan,
                self.spec_sigma(),
                self.blurs_alpha(),
                width,
                height,
            ),
            BlurStrategy::Downsample { factor, adjusted_sigma } => is_downsample_plan(
                plan,
                factor,
                adjusted_sigma,
                self.blurs_alpha(),
                width,
                height,
            ),
        }
    }

    /// Whether a job is the one for an image.
    pub open spec fn is_job<E: Fn(F32) -> F32>(
        self,
        exp: E,
        image: Seq<Seq<Pixel>>,
        job: BlurJob,
    ) -> bool {
        &&& job.upload@ == padded(image)
        &&& job.width == image[0].len()
        &&& job.height == image.len()
        &&& job.bytes_per_row == padded_row(image[0].len() as int)
        &&& job.buffer_size == padded_row(image[0].len() as int) * image.len()
        &&& self.is_plan(exp, job.width, job.height, job.plan)
    }

    /// Whether an event can be answered: after the start there is an image, and a device that
    /// works is only handed an image that fits it.
    pub open spec fn accepts(self, image: Seq<Seq<Pixel>>, event: GpuEvent) -> bool {
        match event {
            GpuEvent::Start => true,
            GpuEvent::Limit { .. } => !is_blank(image),
            GpuEvent::Tested { data } => {
                &&& !is_blank(image)
                &&& data is Ok && shows_output(data->Ok_0@) ==> fits_device(
                    image[0].len() as int,
                    image.len() as int,
                ) && self.can_plan()
            },
            GpuEvent::Blurred { data } => {
                &&& !is_blank(image)
                &&& data is Ok ==> fits_device(image[0].len() as int, image.len() as int)
            },
        }
    }

    /// Whether an action is the one that follows an event.
    pub open spec fn follows<E: Fn(F32) -> F32>(
        self,
        exp: E,
        image: Seq<Seq<Pixel>>,
        event: GpuEvent,
        action: GpuAction,
    ) -> bool {
        let width = image[0].len();
        let height = image.len();
        match event {
            GpuEvent::Start => if is_blank(image) {
                action matches GpuAction::Finish { result: Ok((bytes, w, h)) } && bytes@.len() == 0
                    && w == 0 && h == 0
            } else {
                action is AskLimit
            },
            GpuEvent::Limit { max_texture_dimension: limit } => if low_32(width) > limit {
                action matches GpuAction::Finish {
                    result: Err(GpuError::WidthExceedsLimit { width: w, limit: l }),
                } && w == width && l == limit
            } else if low_32(height) > limit {
                action matches GpuAction::Finish {
                    result: Err(GpuError::HeightExceedsLimit { height: h, limit: l }),
                } && h == height && l == limit
            } else {
                action == (GpuAction::Test { test: write_test_for(width as int, height as int) })
            },
            GpuEvent::Tested { data } => match data {
                Ok(data) => if shows_output(data@) {
                    action matches GpuAction::Blur { job } && self.is_job(exp, image, job)
                } else {
                    action == (GpuAction::Finish { result: Err(GpuError::WriteTestFailed) })
                },
                Err(reason) => action == (GpuAction::Finish {
                    result: Err(GpuError::WriteTestError { reason }),
                }),
            },
            GpuEvent::Blurred { data } => match data {
                Ok(data) => action matches GpuAction::Finish { result: Ok((bytes, w, h)) } && bytes@
                    == unpadded(data@, width as int, height as int) && w == width && h == height,
                Err(reason) => action == (GpuAction::Finish {
                    result: Err(GpuError::Device { reason }),
                }),
            },
        }
    }

    /// Create a new GPU Gaussian Blur processor
    pub fn new(sigma: F32, radius: Option<i32>, blur_alpha: bool) -> (b: GpuGaussianBlur)
        ensures
            b.spec_sigma() == sigma,
            b.spec_radius() == effective_radius(sigma, radius),
            b.blurs_alpha() == blur_alpha,
    {
        GpuGaussianBlur {
            sigma,
            radius: choose_radius(sigma, radius),
            blur_alpha,
            strategy: select_strategy(sigma),
        }
    }

    /// The strategy of the blur.
    pub fn strategy(&self) -> (s: BlurStrategy)
        ensures
            s == strategy_for(self.spec_sigma()),
    {
        proof {
            use_type_invariant(self);
        }
        self.strategy
    }

    /// Whether a plan can be made.
    pub fn is_possible(&self) -> (r: bool)
        ensures
            r == self.can_plan(),
    {
        proof {
            use_type_invariant(self);
        }
        match self.strategy {
            BlurStrategy::Gaussian => self.radius >= 0 && self.radius <= (MAX_WEIGHTS / 2) as i32
                && 2 * self.radius + 1 <= MAX_WEIGHTS as i32,
            BlurStrategy::Box3Pass => true,
            BlurStrategy::Downsample { adjusted_sigma, .. } => can_compute_boxes(adjusted_sigma),
        }
    }

    /// Apply true Gaussian blur (for small sigmas)
    fn apply_gaussian_blur<E: Fn(F32) -> F32>(&self, width: u32, height: u32, exp: &E) -> (plan:
        GpuPlan)
        requires
            can_dispatch(width as int, height as int),
            weights_have_room(self.spec_radius()),
            forall|x: F32| call_requires(*exp, (x,)),
        ensures
            is_gaussian_plan(
                plan,
                *exp,
                self.spec_sigma(),
                self.spec_radius() as u32,
                self.blurs_alpha(),
                width,
                height,
            ),
    {
        plan_gaussian_blur(self.sigma, self.radius as u32, self.blur_alpha, width, height, exp)
    }

    /// Apply 3-pass box blur approximation
    fn apply_box_blur_3pass(&self, width: u32, height: u32) -> (plan: GpuPlan)
        requires
            can_dispatch(width as int, height as int),
            strategy_for(self.spec_sigma()) is Box3Pass,
        ensures
            is_box_plan(plan, self.spec_sigma(), self.blurs_alpha(), width, height),
    {
        proof {
            law_full_size_boxes_fit(self.spec_sigma());
        }
        plan_box_blur_3pass(self.sigma, self.blur_alpha, width, height)
    }

    /// Apply downsample -> blur -> upsample pipeline
    fn apply_downsample_blur_upsample(
        &self,
        width: u32,
        height: u32,
        factor: u32,
        adjusted_sigma: F32,
    ) -> (plan: GpuPlan)
        requires
            can_dispatch(width as int, height as int),
            0 < factor <= 8,
            less(zero(), adjusted_sigma),
            boxes_fit(adjusted_sigma),
        ensures
            is_downsample_plan(
                plan,
                factor,
                adjusted_sigma,
                self.blurs_alpha(),
                width,
                height,
            ),
    {
        plan_downsample_blur_upsample(factor, adjusted_sigma, self.blur_alpha, width, height)
    }

    /// The trial of the device for an image of this size.
    fn test_simple_write(&self, width: usize, height: usize) -> (test: WriteTest)
        ensures
            test == write_test_for(width as int, height as int),
    {
        let w: u32 = if width < 16 {
            width as u32
        } else {
            16
        };
        let h: u32 = if height < 16 {
            height as u32
        } else {
            16
        };
        let bytes_per_row = padded_row_size(w);
        let size = buffer_size(w, h);
        WriteTest {
            width: w,
            height: h,
            dispatch_x: (w + 7) / 8,
            dispatch_y: (h + 7) / 8,
            bytes_per_row,
            buffer_size: size,
        }
    }

    /// Apply blur to an image using GPU with optimal strategy: what to do after an event.
    pub fn blur_to_bytes<E: Fn(F32) -> F32>(
        &self,
        image: &[Vec<Pixel>],
        event: GpuEvent,
        exp: &E,
    ) -> (action: GpuAction)
        requires
            forall|x: F32| call_requires(*exp, (x,)),
            self.accepts(pixels_of(image@), event),
        ensures
            self.follows(*exp, pixels_of(image@), event, action),
    {
        match event {
            GpuEvent::Start => {
                if image.len() == 0 || image[0].len() == 0 {
                    GpuAction::Finish { result: Ok((Vec::new(), 0, 0)) }
                } else {
                    GpuAction::AskLimit
                }
            },
            GpuEvent::Limit { max_texture_dimension: limit } => {
                let width = image[0].len();
                let height = image.len();
                if to_u32(width) > limit {
                    GpuAction::Finish { result: Err(GpuError::WidthExceedsLimit { width, limit }) }
                } else if to_u32(height) > limit {
                    GpuAction::Finish {
                        result: Err(GpuError::HeightExceedsLimit { height, limit }),
                    }
                } else {
                    GpuAction::Test { test: self.test_simple_write(width, height) }
                }
            },
            GpuEvent::Tested { data: Ok(data) } => {
                if has_output(data.as_slice()) {
                    GpuAction::Blur { job: self.make_job(image, exp) }
                } else {
                    GpuAction::Finish { result: Err(GpuError::WriteTestFailed) }
                }
            },
            GpuEvent::Tested { data: Err(reason) } => {
                GpuAction::Finish { result: Err(GpuError::WriteTestError { reason }) }
            },
            GpuEvent::Blurred { data: Ok(data) } => {
                let width = image[0].len();
                let height = image.len();
                let bytes = extract_rows(data.as_slice(), width, height);
                GpuAction::Finish { result: Ok((bytes, width, height)) }
            },
            GpuEvent::Blurred { data: Err(reason) } => {
                GpuAction::Finish { result: Err(GpuError::Device { reason }) }
            },
        }
    }

    /// The job for an image.
    fn make_job<E: Fn(F32) -> F32>(&self, image: &[Vec<Pixel>], exp: &E) -> (job: BlurJob)
        requires
            forall|x: F32| call_requires(*exp, (x,)),
            !is_blank(pixels_of(image@)),
            fits_device(image@[0]@.len() as int, image@.len() as int),
            self.can_plan(),
        ensures
            self.is_job(*exp, pixels_of(image@), job),
    {
        proof {
            use_type_invariant(self);
        }
        let width = image[0].len() as u32;
        let height = image.len() as u32;
        let plan = match self.strategy {
            BlurStrategy::Gaussian => self.apply_gaussian_blur(width, height, exp),
            BlurStrategy::Box3Pass => self.apply_box_blur_3pass(width, height),
            BlurStrategy::Downsample { factor, adjusted_sigma } => {
                self.apply_downsample_blur_upsample(width, height, factor, adjusted_sigma)
            },
        };
        BlurJob {
            upload: pad_image(image),
            width,
            height,
            bytes_per_row: padded_row_size(width),
            buffer_size: buffer_size(width, height),
            plan,
        }
    }

    /// Apply blur to an image and return as 2D pixel array: the pixels of the result that
    /// [`GpuGaussianBlur::blur_to_bytes`] ended with.
    pub fn blur(&self, result: Result<(Vec<u8>, usize, usize), GpuError>) -> (r: Result<
        Vec<Vec<Pixel>>,
        GpuError,
    >)
        requires
            result matches Ok((bytes, width, height)) ==> bytes@.len() >= 4 * (width * height),
        ensures
            match result {
                Ok((bytes, width, height)) => r matches Ok(pixels) && pixels_of(pixels@)
                    == image_from_bytes(bytes@, width as int, height as int),
                Err(e) => r == Err::<Vec<Vec<Pixel>>, GpuError>(e),
            },
    {
        match result {
            Ok((bytes, width, height)) => Ok(unflatten(bytes.as_slice(), width, height)),
            Err(e) => Err(e),
        }
    }
}

/// The boxes for a sigma that is blurred at full size can be computed.
pub proof fn law_full_size_boxes_fit(sigma: F32)
    requires
        strategy_for(sigma) is Box3Pass,
    ensures
        less(zero(), sigma),
        boxes_fit(sigma),
{
    lemma_of_int_exact(2);
    lemma_of_int_exact(32);
    lemma_zero_and_one();
    vstd::arithmetic::power2::lemma_pow2_pos(149);
    assert(!of_int(2).is_zero()) by {
        assert(crate::float::repr::grid(0) == 0);
    }
    lemma_boxes_fit(sigma);
}

/// The boxes for a sigma of up to 256 can be computed once the image is made smaller.
pub proof fn law_downsampled_boxes_fit(sigma: F32)
    requires
        strategy_for(sigma) is Downsample,
        at_most(sigma, of_int(256)),
    ensures
        less(zero(), strategy_for(sigma)->adjusted_sigma),
        at_most(strategy_for(sigma)->adjusted_sigma, of_int(32)),
        boxes_fit(strategy_for(sigma)->adjusted_sigma),
{
    let factor = strategy_for(sigma)->factor;
    let adjusted = strategy_for(sigma)->adjusted_sigma;
    lemma_of_int_exact(2);
    lemma_of_int_exact(4);
    lemma_of_int_exact(8);
    lemma_of_int_exact(16);
    lemma_of_int_exact(32);
    lemma_of_int_exact(64);
    lemma_of_int_exact(100);
    lemma_of_int_exact(128);
    lemma_of_int_exact(256);
    lemma_zero_and_one();
    vstd::arithmetic::power2::lemma_pow2_pos(149);
    assert(crate::float::repr::grid(0) == 0);
    let f = of_int(factor as int);
    let high: nat = 32 * factor as nat;
    lemma_of_int_keeps_order(32, 64);
    lemma_of_int_keeps_order(100, 128);
    lemma_quotient_keeps_order(sigma, of_int(high as int), f);
    lemma_quotient_of_ints(32, factor as nat);
    let low: nat = 4 * factor as nat;
    lemma_of_int_exact(low);
    lemma_of_int_keeps_order(low, 32);
    lemma_quotient_keeps_order(of_int(low as int), sigma, f);
    lemma_quotient_of_ints(4, factor as nat);
    lemma_boxes_fit(adjusted);
}

} // verus!
