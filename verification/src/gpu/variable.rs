//! The blur whose strength a mask sets for every pixel, step by step.

use crate::blur::is_blank;
use crate::bytes::{bytes_of_image, image_bytes, image_from_bytes, low_32, to_u32, unflatten};
use crate::float::convert::of_int;
use crate::float::numbers::{one, zero, ONE_BITS, ZERO_BITS};
use crate::float::repr::F32;
use crate::gpu::params::{are_words_in_memory, bytes_of_words, little_endian, word_byte};
use crate::gpu::plan::groups;
use crate::gpu::processor::GpuError;
use crate::pixel::Pixel;
use crate::sampling::pixels_of;
use vstd::prelude::*;

verus! {

/// The width and height of a workgroup.
pub const WORKGROUP_SIZE: u32 = 16;

/// Default maximum samples for Gaussian blur
pub const MAX_SAMPLES_DEFAULT: u64 = 16;

/// What happened last.
pub enum VariableBlurEvent {
    /// Nothing yet
    Start,
    /// The device has told the largest width and height of its textures
    Limit { max_texture_dimension: u32 },
    /// The blur has written this buffer, or failed
    Blurred { data: Result<Vec<u8>, String> },
}

/// A variable blur for the device: a pass across the rows, then one down the columns.
pub struct VariableBlurJob {
    /// The bytes of the input
    pub upload: Vec<u8>,
    /// The bytes of the mask, four for each pixel
    pub mask: Vec<u8>,
    pub width: u32,
    pub height: u32,
    /// The number of bytes of a row of the input, of the mask and of the buffer that is
    /// read back
    pub bytes_per_row: u32,
    pub buffer_size: u64,
    /// The bytes of the parameters of the first pass
    pub horizontal: Vec<u8>,
    /// The bytes of the parameters of the second pass
    pub vertical: Vec<u8>,
    pub dispatch_x: u32,
    pub dispatch_y: u32,
}

/// What to do next.
pub enum VariableBlurAction {
    /// Nothing: this is the result
    Finish { result: Result<(Vec<u8>, usize, usize), GpuError> },
    /// Ask the device for the largest width and height of its textures
    AskLimit,
    /// Blur the image, and read the buffer back
    Blur { job: VariableBlurJob },
}

/// Metal-style GPU Variable Gaussian Blur processor
pub struct MetalGpuGaussianBlur {
    max_radius: F32,
    max_samples: F32,
    normalize_edges: bool,
}

/// The values of a mask, row by row.
pub open spec fn values_of(mask: Seq<Vec<F32>>) -> Seq<Seq<F32>> {
    Seq::new(mask.len(), |y: int| mask[y]@)
}

/// The bit patterns of numbers.
pub open spec fn patterns(values: Seq<F32>) -> Seq<u32> {
    Seq::new(values.len(), |i: int| values[i].bits)
}

/// The bytes of a mask, row after row, the lowest byte of each number first.
pub open spec fn mask_bytes(mask: Seq<Seq<F32>>) -> Seq<u8>
    decreases mask.len(),
{
    if mask.len() == 0 {
        Seq::empty()
    } else {
        mask_bytes(mask.drop_last()) + little_endian(patterns(mask.last()))
    }
}

/// The width of a mask: the length of its first row.
pub open spec fn mask_width(mask: Seq<Seq<F32>>) -> nat {
    if mask.len() == 0 {
        0
    } else {
        mask[0].len()
    }
}

/// Whether a mask has the size of an image.
pub open spec fn mask_matches(image: Seq<Seq<Pixel>>, mask: Seq<Seq<F32>>) -> bool {
    mask.len() == image.len() && mask_width(mask) == image[0].len()
}

/// A mask that blurs every pixel in full.
pub open spec fn full_mask(image: Seq<Seq<Pixel>>) -> Seq<Seq<F32>> {
    Seq::new(image.len(), |y: int| Seq::new(image[0].len(), |x: int| one()))
}

/// The words of the parameters of a pass: the rectangle of the image, the radius, the
/// number of samples, the direction, the treatment of edges, and four unused ones.
pub open spec fn uniform_words(
    width: int,
    height: int,
    max_radius: F32,
    max_samples: F32,
    vertical: bool,
    normalize_edges: bool,
) -> Seq<u32> {
    seq![
        zero().bits,
        zero().bits,
        of_int(width).bits,
        of_int(height).bits,
        max_radius.bits,
        max_samples.bits,
        if vertical { one().bits } else { zero().bits },
        if normalize_edges { one().bits } else { zero().bits },
        0,
        0,
        0,
        0,
    ]
}

/// Whether the sizes of an image fit into what the device counts with.
pub open spec fn fits_variable_blur(width: int, height: int) -> bool {
    &&& 4 * width <= u32::MAX
    &&& width + 15 <= u32::MAX
    &&& height + 15 <= u32::MAX
    &&& 4 * (width * height) <= usize::MAX
}

/// The bytes of a mask, row after row.
fn bytes_of_mask(mask: &[Vec<F32>]) -> (bytes: Vec<u8>)
    ensures
        bytes@ == mask_bytes(values_of(mask@)),
{
    let ghost values = values_of(mask@);
    let mut bytes: Vec<u8> = Vec::new();
    assert(values.take(0) =~= Seq::empty());
    for y in 0..mask.len()
        invariant
            values == values_of(mask@),
            bytes@ == mask_bytes(values.take(y as int)),
    {
        let row = &mask[y];
        let ghost before = bytes@;
        assert(before + little_endian(patterns(row@.take(0))) =~= before);
        for x in 0..row.len()
            invariant
                bytes@ == before + little_endian(patterns(row@.take(x as int))),
        {
            let word: u32 = row[x].to_bits();
            let ghost start = bytes@;
            bytes.push((word % 0x100) as u8);
            bytes.push((word / 0x100 % 0x100) as u8);
            bytes.push((word / 0x1_0000 % 0x100) as u8);
            bytes.push((word / 0x100_0000) as u8);
            proof {
                let four = seq![
                    word_byte(word, 0),
                    word_byte(word, 1),
                    word_byte(word, 2),
                    word_byte(word, 3),
                ];
                let shorter = little_endian(patterns(row@.take(x as int)));
                let longer = little_endian(patterns(row@.take(x + 1)));
                assert(longer =~= shorter + four);
                assert(bytes@ =~= start + four);
                assert(bytes@ =~= before + longer);
            }
        }
        proof {
            assert(row@.take(row@.len() as int) =~= row@);
            assert(values.take(y + 1).drop_last() =~= values.take(y as int));
            assert(values.take(y + 1).last() == row@);
        }
    }
    assert(values.take(values.len() as int) =~= values);
    bytes
}

impl MetalGpuGaussianBlur {
    /// The largest radius of the blur.
    pub closed spec fn spec_max_radius(self) -> F32 {
        self.max_radius
    }

    /// The largest number of samples for a pixel.
    pub closed spec fn spec_max_samples(self) -> F32 {
        self.max_samples
    }

    /// Whether edges are normalized.
    pub closed spec fn normalizes_edges(self) -> bool {
        self.normalize_edges
    }

    /// Whether a job is the one for an image and a mask.
    pub open spec fn is_job(
        self,
        image: Seq<Seq<Pixel>>,
        mask: Seq<Seq<F32>>,
        job: VariableBlurJob,
    ) -> bool {
        let width = image[0].len() as int;
        let height = image.len() as int;
        &&& job.upload@ == image_bytes(image)
        &&& job.mask@ == mask_bytes(mask)
        &&& job.width == width
        &&& job.height == height
        &&& job.bytes_per_row == 4 * width
        &&& job.buffer_size == 4 * (width * height)
        &&& are_words_in_memory(
            job.horizontal@,
            uniform_words(
                width,
                height,
                self.spec_max_radius(),
                self.spec_max_samples(),
                false,
                self.normalizes_edges(),
            ),
        )
        &&& are_words_in_memory(
            job.vertical@,
            uniform_words(
                width,
                height,
                self.spec_max_radius(),
                self.spec_max_samples(),
                true,
                self.normalizes_edges(),
            ),
        )
        &&& job.dispatch_x == groups(width, WORKGROUP_SIZE as int)
        &&& job.dispatch_y == groups(height, WORKGROUP_SIZE as int)
    }

    /// Whether an event can be answered: after the start there is an image with a mask of its
    /// size, and only an image that fits is handed to the device.
    pub open spec fn accepts(
        self,
        image: Seq<Seq<Pixel>>,
        mask: Seq<Seq<F32>>,
        event: VariableBlurEvent,
    ) -> bool {
        match event {
            VariableBlurEvent::Start => true,
            VariableBlurEvent::Limit { max_texture_dimension: limit } => {
                &&& !is_blank(image)
                &&& mask_matches(image, mask)
                &&& low_32(image[0].len()) <= limit ==> fits_variable_blur(
                    image[0].len() as int,
                    image.len() as int,
                )
            },
            VariableBlurEvent::Blurred { .. } => !is_blank(image),
        }
    }

    /// Whether an action is the one that follows an event.
    pub open spec fn follows(
        self,
        image: Seq<Seq<Pixel>>,
        mask: Seq<Seq<F32>>,
        event: VariableBlurEvent,
        action: VariableBlurAction,
    ) -> bool {
        match event {
            VariableBlurEvent::Start => if is_blank(image) {
                action matches VariableBlurAction::Finish { result: Ok((bytes, w, h)) }
                    && bytes@.len() == 0 && w == 0 && h == 0
            } else if !mask_matches(image, mask) {
                action matches VariableBlurAction::Finish {
                    result: Err(
                        GpuError::MaskMismatch { mask_height, mask_width: w, height, width },
                    ),
                } && mask_height == mask.len() && w == mask_width(mask) && height == image.len()
                    && width == image[0].len()
            } else {
                action is AskLimit
            },
            VariableBlurEvent::Limit { max_texture_dimension: limit } => if low_32(
                image[0].len(),
            ) > limit {
                action matches VariableBlurAction::Finish {
                    result: Err(GpuError::WidthExceedsLimit { width, limit: l }),
                } && width == image[0].len() && l == limit
            } else {
                action matches VariableBlurAction::Blur { job } && self.is_job(image, mask, job)
            },
            VariableBlurEvent::Blurred { data } => match data {
                Ok(data) => action matches VariableBlurAction::Finish { result: Ok((bytes, w, h)) }
                    && bytes@ == data@ && w == image[0].len() && h == image.len(),
                Err(reason) => action == (VariableBlurAction::Finish {
                    result: Err(GpuError::Device { reason }),
                }),
            },
        }
    }

    /// Create a new Metal-style GPU Gaussian Blur processor
    pub fn new(max_radius: F32, max_samples: Option<F32>, normalize_edges: bool) -> (b:
        MetalGpuGaussianBlur)
        ensures
            b.spec_max_radius() == max_radius,
            b.spec_max_samples() == match max_samples {
                Some(n) => n,
                None => of_int(MAX_SAMPLES_DEFAULT as int),
            },
            b.normalizes_edges() == normalize_edges,
    {
        let max_samples = match max_samples {
            Some(n) => n,
            None => F32::from_u64(MAX_SAMPLES_DEFAULT),
        };
        MetalGpuGaussianBlur { max_radius, max_samples, normalize_edges }
    }

    /// The bytes of the parameters of a pass.
    fn uniforms(&self, width: usize, height: usize, vertical: bool) -> (bytes: Vec<u8>)
        ensures
            are_words_in_memory(
                bytes@,
                uniform_words(
                    width as int,
                    height as int,
                    self.spec_max_radius(),
                    self.spec_max_samples(),
                    vertical,
                    self.normalizes_edges(),
                ),
            ),
    {
        let direction: u32 = if vertical {
            ONE_BITS
        } else {
            ZERO_BITS
        };
        let edges: u32 = if self.normalize_edges {
            ONE_BITS
        } else {
            ZERO_BITS
        };
        let words: Vec<u32> = vec![
            ZERO_BITS,
            ZERO_BITS,
            F32::from_u64(width as u64).to_bits(),
            F32::from_u64(height as u64).to_bits(),
            self.max_radius.to_bits(),
            self.max_samples.to_bits(),
            direction,
            edges,
            0,
            0,
            0,
            0,
        ];
        assert(words@ =~= uniform_words(
            width as int,
            height as int,
            self.spec_max_radius(),
            self.spec_max_samples(),
            vertical,
            self.normalizes_edges(),
        ));
        bytes_of_words(&words)
    }

    /// The job for an image and a mask.
    fn make_job(&self, image: &[Vec<Pixel>], mask: &[Vec<F32>]) -> (job: VariableBlurJob)
        requires
            image@.len() > 0,
            fits_variable_blur(image@[0]@.len() as int, image@.len() as int),
        ensures
            self.is_job(pixels_of(image@), values_of(mask@), job),
    {
        let width = image[0].len();
        let height = image.len();
        let horizontal = self.uniforms(width, height, false);
        let vertical = self.uniforms(width, height, true);
        assert(width * height * 4 == 4 * (width * height)) by (nonlinear_arith);
        VariableBlurJob {
            upload: bytes_of_image(image),
            mask: bytes_of_mask(mask),
            width: width as u32,
            height: height as u32,
            bytes_per_row: 4 * width as u32,
            buffer_size: (width * height * 4) as u64,
            horizontal,
            vertical,
            dispatch_x: (width as u32 + (WORKGROUP_SIZE - 1)) / WORKGROUP_SIZE,
            dispatch_y: (height as u32 + (WORKGROUP_SIZE - 1)) / WORKGROUP_SIZE,
        }
    }

    /// Apply variable blur and return as bytes (RGBA format): what to do after an event.
    pub fn blur_with_mask_to_bytes(
        &self,
        image: &[Vec<Pixel>],
        mask: &[Vec<F32>],
        event: VariableBlurEvent,
    ) -> (action: VariableBlurAction)
        requires
            self.accepts(pixels_of(image@), values_of(mask@), event),
        ensures
            self.follows(pixels_of(image@), values_of(mask@), event, action),
    {
        match event {
            VariableBlurEvent::Start => {
                if image.len() == 0 || image[0].len() == 0 {
                    return VariableBlurAction::Finish { result: Ok((Vec::new(), 0, 0)) };
                }
                let height = image.len();
                let width = image[0].len();
                let mask_height = mask.len();
                let mask_width = if mask_height == 0 {
                    0
                } else {
                    mask[0].len()
                };
                if mask_height != height || mask_width != width {
                    VariableBlurAction::Finish {
                        result: Err(
                            GpuError::MaskMismatch { mask_height, mask_width, height, width },
                        ),
                    }
                } else {
                    VariableBlurAction::AskLimit
                }
            },
            VariableBlurEvent::Limit { max_texture_dimension: limit } => {
                let width = image[0].len();
                if to_u32(width) > limit {
                    VariableBlurAction::Finish {
                        result: Err(GpuError::WidthExceedsLimit { width, limit }),
                    }
                } else {
                    VariableBlurAction::Blur { job: self.make_job(image, mask) }
                }
            },
            VariableBlurEvent::Blurred { data: Ok(data) } => VariableBlurAction::Finish {
                result: Ok((data, image[0].len(), image.len())),
            },
            VariableBlurEvent::Blurred { data: Err(reason) } => VariableBlurAction::Finish {
                result: Err(GpuError::Device { reason }),
            },
        }
    }

    /// Apply variable blur to an image using a mask texture: the pixels of the result that
    /// [`MetalGpuGaussianBlur::blur_with_mask_to_bytes`] ended with.
    pub fn blur_with_mask(&self, result: Result<(Vec<u8>, usize, usize), GpuError>) -> (r: Result<
        Vec<Vec<Pixel>>,
        GpuError,
    >)
        requires
            result matches Ok((bytes, width, height)) ==> bytes@.len() >= 4 * (width * height),
        ensures
            match result {
                Ok((bytes, width, height)) => r matches Ok(pixels) && pixels_of(pixels@)
                    == image_from_bytes(bytes@, width as int, height as int),
                Err(e) => r == Err::<Vec<Vec<Pixel>>, GpuError>(e),
            },
    {
        match result {
            Ok((bytes, width, height)) => Ok(unflatten(bytes.as_slice(), width, height)),
            Err(e) => Err(e),
        }
    }

    /// Apply uniform blur (all pixels use same radius): what to do after an event.
    pub fn blur_uniform(&self, image: &[Vec<Pixel>], event: VariableBlurEvent) -> (action:
        VariableBlurAction)
        requires
            image@.len() > 0,
            self.accepts(pixels_of(image@), full_mask(pixels_of(image@)), event),
        ensures
            self.follows(pixels_of(image@), full_mask(pixels_of(image@)), event, action),
    {
        let height = image.len();
        let width = image[0].len();
        let ghost want = full_mask(pixels_of(image@));
        let mut mask: Vec<Vec<F32>> = Vec::new();
        for y in 0..height
            invariant
                height == image@.len(),
                height > 0,
                width == image@[0]@.len(),
                want == full_mask(pixels_of(image@)),
                mask@.len() == y,
                forall|i: int| 0 <= i < y ==> (#[trigger] mask@[i]@) == want[i],
        {
            let mut row: Vec<F32> = Vec::new();
            for x in 0..width
                invariant
                    row@.len() == x,
                    forall|i: int| 0 <= i < x ==> row@[i] == one(),
            {
                row.push(F32::from_bits(ONE_BITS));
            }
            assert(row@ =~= want[y as int]);
            mask.push(row);
        }
        assert(values_of(mask@) =~= want);
        self.blur_with_mask_to_bytes(image, mask.as_slice(), event)
    }

    /// Get the maximum blur radius
    pub fn max_radius(&self) -> (r: F32)
        ensures
            r == self.spec_max_radius(),
    {
        self.max_radius
    }

    /// Get the maximum samples per pixel
    pub fn max_samples(&self) -> (r: F32)
        ensures
            r == self.spec_max_samples(),
    {
        self.max_samples
    }

    /// Check if edge normalization is enabled
    pub fn normalize_edges(&self) -> (r: bool)
        ensures
            r == self.normalizes_edges(),
    {
        self.normalize_edges
    }
}

/// Whether two results are the same.
pub open spec fn same_result(
    a: Result<(Vec<u8>, usize, usize), GpuError>,
    b: Result<(Vec<u8>, usize, usize), GpuError>,
) -> bool {
    match (a, b) {
        (Ok((p, pw, ph)), Ok((q, qw, qh))) => p@ == q@ && pw == qw && ph == qh,
        (Err(e), Err(f)) => e == f,
        _ => false,
    }
}

/// Whether two jobs hand the device the same image, mask and parameters, and read back the same.
pub open spec fn same_job(a: VariableBlurJob, b: VariableBlurJob) -> bool {
    &&& a.upload@ == b.upload@
    &&& a.mask@ == b.mask@
    &&& a.width == b.width
    &&& a.height == b.height
    &&& a.bytes_per_row == b.bytes_per_row
    &&& a.buffer_size == b.buffer_size
    &&& a.dispatch_x == b.dispatch_x
    &&& a.dispatch_y == b.dispatch_y
    &&& exists|words: Seq<u32>| #[trigger]
        are_words_in_memory(a.horizontal@, words) && are_words_in_memory(b.horizontal@, words)
    &&& exists|words: Seq<u32>| #[trigger]
        are_words_in_memory(a.vertical@, words) && are_words_in_memory(b.vertical@, words)
}

/// Whether two actions are the same.
pub open spec fn same_action(a: VariableBlurAction, b: VariableBlurAction) -> bool {
    match (a, b) {
        (VariableBlurAction::Finish { result: p }, VariableBlurAction::Finish { result: q }) =>
            same_result(p, q),
        (VariableBlurAction::AskLimit, VariableBlurAction::AskLimit) => true,
        (VariableBlurAction::Blur { job: p }, VariableBlurAction::Blur { job: q }) =>
            same_job(p, q),
        _ => false,
    }
}

/// A blur without a mask does at every event what the blur with a mask of ones does, errors
/// included: each answers as [`MetalGpuGaussianBlur::follows`] says, and that leaves one answer.
pub proof fn law_uniform_blur_is_full_mask(
    blur: MetalGpuGaussianBlur,
    image: Seq<Seq<Pixel>>,
    event: VariableBlurEvent,
    uniform: VariableBlurAction,
    masked: VariableBlurAction,
)
    requires
        image.len() > 0,
        blur.follows(image, full_mask(image), event, uniform),
        blur.follows(image, full_mask(image), event, masked),
    ensures
        same_action(uniform, masked),
        mask_matches(image, full_mask(image)),
{
    if let VariableBlurEvent::Start = event {
        if let VariableBlurAction::Finish { result: Ok((p, _, _)) } = uniform {
            if let VariableBlurAction::Finish { result: Ok((q, _, _)) } = masked {
                assert(p@ =~= q@);
            }
        }
    }
    if let VariableBlurEvent::Limit { .. } = event {
        if let VariableBlurAction::Blur { job: a } = uniform {
            if let VariableBlurAction::Blur { job: b } = masked {
                let width = image[0].len() as int;
                let height = image.len() as int;
                let across = uniform_words(
                    width,
                    height,
                    blur.spec_max_radius(),
                    blur.spec_max_samples(),
                    false,
                    blur.normalizes_edges(),
                );
                let down = uniform_words(
                    width,
                    height,
                    blur.spec_max_radius(),
                    blur.spec_max_samples(),
                    true,
                    blur.normalizes_edges(),
                );
                assert(are_words_in_memory(a.horizontal@, across));
                assert(are_words_in_memory(b.horizontal@, across));
                assert(are_words_in_memory(a.vertical@, down));
                assert(are_words_in_memory(b.vertical@, down));
            }
        }
    }
}

} // verus!
