//! What goes to the devices and what is made of what they send back.

use crate::blur::is_blank;
use crate::bytes::{image_bytes, image_from_bytes, is_rectangular, law_bytes_round_trip};
use crate::float::convert::of_int;
use crate::float::numbers::one;
use crate::float::order::{lemma_of_int_exact, lemma_root_of_one};
use crate::float::repr::{lemma_grid_increases, lemma_of_parts, F32};
use crate::gpu::mps::{
    blur_with_metal, pixel_distance, shows_blur, MetalMPSBlur, MpsError, MpsJob,
};
use crate::gpu::params::little_endian;
use crate::gpu::plan::law_groups_cover;
use crate::gpu::plan_laws::{held_word, hold_words, law_memory_holds_words, lemma_held_word};
use crate::gpu::processor::{BlurJob, GpuAction, GpuError, GpuEvent, GpuGaussianBlur};
use crate::gpu::readback::{analyzed_pixels, padded_row, pixel_shows, showing_pixels, unpadded};
use crate::gpu::upload::{law_upload_round_trip, padded};
use crate::gpu::variable::{
    full_mask, law_uniform_blur_is_full_mask, mask_bytes, patterns, same_action, uniform_words,
    values_of, MetalGpuGaussianBlur, VariableBlurAction, VariableBlurEvent, VariableBlurJob,
};
use crate::pixel::Pixel;
use crate::sampling::pixels_of;
use crate::sums::total;
use crate::text::decimal;
use vstd::arithmetic::power2::pow2;
use vstd::prelude::*;

verus! {

/// A padded row is the least multiple of 256 bytes that holds the pixels of a row.
pub proof fn law_padded_row_is_least(width: int, other: int)
    requires
        width >= 0,
        other % 256 == 0,
        other >= 4 * width,
    ensures
        padded_row(width) % 256 == 0,
        4 * width <= padded_row(width) <= other,
{
}

/// What is uploaded: every row in as many bytes as a padded row has, four for each pixel with red
/// first, then green, blue and alpha, and zeros after the last pixel.
pub proof fn law_upload_layout(image: Seq<Seq<Pixel>>, y: int, at: int)
    requires
        0 <= y < image.len(),
        0 <= at < padded_row(image[0].len() as int),
    ensures
        ({
            let size = padded_row(image[0].len() as int);
            let byte = padded(image)[y * size + at];
            let pixel = image[y][at / 4];
            let inside = at < 4 * image[0].len() && at < 4 * image[y].len();
            &&& padded(image).len() == size * image.len()
            &&& 0 <= y * size + at < padded(image).len()
            &&& !inside ==> byte == 0
            &&& inside && at % 4 == 0 ==> byte == pixel.r
            &&& inside && at % 4 == 1 ==> byte == pixel.g
            &&& inside && at % 4 == 2 ==> byte == pixel.b
            &&& inside && at % 4 == 3 ==> byte == pixel.a
        }),
{
    let size = padded_row(image[0].len() as int);
    vstd::arithmetic::div_mod::lemma_fundamental_div_mod_converse(y * size + at, size, y, at);
    let n = image.len();
    assert(0 <= y * size + at < size * n && size * n >= 0) by (nonlinear_arith)
        requires
            0 <= y < n,
            0 <= at < size,
    ;
}

/// What is read back: the bytes of the pixels of every padded row, one row after the other, and
/// zeros for those that did not come.
pub proof fn law_readback_layout(data: Seq<u8>, width: int, height: int, y: int, at: int)
    requires
        width > 0,
        0 <= y < height,
        0 <= at < 4 * width,
    ensures
        ({
            let bytes = unpadded(data, width, height);
            let from = y * padded_row(width) + at;
            let to = y * (4 * width) + at;
            &&& bytes.len() == 4 * width * height
            &&& 0 <= to < bytes.len()
            &&& bytes[to] == if from < data.len() {
                data[from]
            } else {
                0
            }
        }),
{
    let used = 4 * width;
    vstd::arithmetic::div_mod::lemma_fundamental_div_mod_converse(y * used + at, used, y, at);
    assert(0 <= y * used + at < used * height && used * height >= 0) by (nonlinear_arith)
        requires
            0 <= y < height,
            0 <= at < used,
    ;
}

/// The job of a blur holds the image in padded rows, its size, and how much is to be read back.
pub proof fn law_job_holds_image<E: Fn(F32) -> F32>(
    blur: GpuGaussianBlur,
    exp: E,
    image: Seq<Seq<Pixel>>,
    event: GpuEvent,
    job: BlurJob,
)
    requires
        blur.follows(exp, image, event, GpuAction::Blur { job }),
        is_rectangular(image),
        !is_blank(image),
    ensures
        job.width == image[0].len(),
        job.height == image.len(),
        4 * job.width <= job.bytes_per_row < 4 * job.width + 256,
        job.bytes_per_row % 256 == 0,
        job.buffer_size == job.bytes_per_row * job.height,
        job.upload@.len() == job.buffer_size,
        unpadded(job.upload@, job.width as int, job.height as int) == image_bytes(image),
        forall|y: int, x: int|
            #![trigger image[y][x]]
            0 <= y < image.len() && 0 <= x < image[0].len() ==> {
                let at = y * job.bytes_per_row + 4 * x;
                &&& job.upload@[at] == image[y][x].r
                &&& job.upload@[at + 1] == image[y][x].g
                &&& job.upload@[at + 2] == image[y][x].b
                &&& job.upload@[at + 3] == image[y][x].a
            },
{
    law_upload_round_trip(image);
    let size = padded_row(image[0].len() as int);
    assert(size * image.len() >= 0) by (nonlinear_arith)
        requires
            size >= 0,
    ;
    assert forall|y: int, x: int|
        #![trigger image[y][x]]
        0 <= y < image.len() && 0 <= x < image[0].len() implies {
        let at = y * job.bytes_per_row + 4 * x;
        &&& job.upload@[at] == image[y][x].r
        &&& job.upload@[at + 1] == image[y][x].g
        &&& job.upload@[at + 2] == image[y][x].b
        &&& job.upload@[at + 3] == image[y][x].a
    } by {
        assert((4 * x) / 4 == x && (4 * x) % 4 == 0);
        assert((4 * x + 1) / 4 == x && (4 * x + 1) % 4 == 1);
        assert((4 * x + 2) / 4 == x && (4 * x + 2) % 4 == 2);
        assert((4 * x + 3) / 4 == x && (4 * x + 3) % 4 == 3);
        law_upload_layout(image, y, 4 * x);
        law_upload_layout(image, y, 4 * x + 1);
        law_upload_layout(image, y, 4 * x + 2);
        law_upload_layout(image, y, 4 * x + 3);
    }
}

/// A picture that the device sends back in padded rows is the result: its bytes come out with its
/// width and its height, and as pixels they are the picture.
pub proof fn law_device_picture_comes_out<E: Fn(F32) -> F32>(
    blur: GpuGaussianBlur,
    exp: E,
    image: Seq<Seq<Pixel>>,
    picture: Seq<Seq<Pixel>>,
    data: Vec<u8>,
    action: GpuAction,
)
    requires
        blur.follows(exp, image, GpuEvent::Blurred { data: Ok(data) }, action),
        is_rectangular(picture),
        !is_blank(picture),
        picture.len() == image.len(),
        picture[0].len() == image[0].len(),
        data@ == padded(picture),
    ensures
        action matches GpuAction::Finish { result: Ok((bytes, width, height)) } && {
            &&& bytes@ == image_bytes(picture)
            &&& width == image[0].len()
            &&& height == image.len()
            &&& image_from_bytes(bytes@, width as int, height as int) == picture
        },
{
    law_upload_round_trip(picture);
    law_bytes_round_trip(picture);
}

/// A failure of the device ends the blur with its reason, and the pixels of a result are those of
/// its bytes; an error stays what it is.
pub proof fn law_blur_ends<E: Fn(F32) -> F32>(
    blur: GpuGaussianBlur,
    exp: E,
    image: Seq<Seq<Pixel>>,
    reason: String,
    action: GpuAction,
    picture: Seq<Seq<Pixel>>,
    bytes: Vec<u8>,
    width: usize,
    height: usize,
    error: GpuError,
    pixels: Result<Vec<Vec<Pixel>>, GpuError>,
    failed: Result<Vec<Vec<Pixel>>, GpuError>,
)
    requires
        blur.follows(exp, image, GpuEvent::Blurred { data: Err(reason) }, action),
        is_rectangular(picture),
        !is_blank(picture),
        width == picture[0].len(),
        height == picture.len(),
        bytes@ == image_bytes(picture),
        call_ensures(
            GpuGaussianBlur::blur,
            (&blur, Ok::<(Vec<u8>, usize, usize), GpuError>((bytes, width, height))),
            pixels,
        ),
        call_ensures(
            GpuGaussianBlur::blur,
            (&blur, Err::<(Vec<u8>, usize, usize), GpuError>(error)),
            failed,
        ),
    ensures
        action == (GpuAction::Finish { result: Err(GpuError::Device { reason }) }),
        pixels matches Ok(p) && pixels_of(p@) == picture,
        failed matches Err(e) && e == error,
{
    law_bytes_round_trip(picture);
}

/// The same of a variable blur.
pub proof fn law_variable_blur_ends(
    blur: MetalGpuGaussianBlur,
    image: Seq<Seq<Pixel>>,
    mask: Seq<Seq<F32>>,
    reason: String,
    action: VariableBlurAction,
    picture: Seq<Seq<Pixel>>,
    bytes: Vec<u8>,
    width: usize,
    height: usize,
    error: GpuError,
    pixels: Result<Vec<Vec<Pixel>>, GpuError>,
    failed: Result<Vec<Vec<Pixel>>, GpuError>,
)
    requires
        blur.follows(image, mask, VariableBlurEvent::Blurred { data: Err(reason) }, action),
        is_rectangular(picture),
        !is_blank(picture),
        width == picture[0].len(),
        height == picture.len(),
        bytes@ == image_bytes(picture),
        call_ensures(
            MetalGpuGaussianBlur::blur_with_mask,
            (&blur, Ok::<(Vec<u8>, usize, usize), GpuError>((bytes, width, height))),
            pixels,
        ),
        call_ensures(
            MetalGpuGaussianBlur::blur_with_mask,
            (&blur, Err::<(Vec<u8>, usize, usize), GpuError>(error)),
            failed,
        ),
    ensures
        action == (VariableBlurAction::Finish { result: Err(GpuError::Device { reason }) }),
        pixels matches Ok(p) && pixels_of(p@) == picture,
        failed matches Err(e) && e == error,
{
    law_bytes_round_trip(picture);
}

/// How a blur on the device begins: an empty image is done at once, and for any other the device
/// is asked for its limit. Above the limit the width is refused first, then the height, and within
/// it the device is tried out on at most sixteen by sixteen pixels.
pub proof fn law_blur_begins<E: Fn(F32) -> F32>(
    blur: GpuGaussianBlur,
    exp: E,
    image: Seq<Seq<Pixel>>,
    limit: u32,
    first: GpuAction,
    second: GpuAction,
)
    requires
        blur.follows(exp, image, GpuEvent::Start, first),
        image.len() > 0 && image[0].len() > 0 ==> blur.follows(
            exp,
            image,
            GpuEvent::Limit { max_texture_dimension: limit },
            second,
        ),
        image.len() < 0x1_0000_0000,
        image[0].len() < 0x1_0000_0000,
    ensures
        image.len() == 0 || image[0].len() == 0 ==> (first matches GpuAction::Finish {
            result: Ok((bytes, width, height)),
        } && bytes@.len() == 0 && width == 0 && height == 0),
        image.len() > 0 && image[0].len() > 0 ==> {
            &&& first is AskLimit
            &&& image[0].len() > limit ==> (second matches GpuAction::Finish {
                result: Err(GpuError::WidthExceedsLimit { width, limit: l }),
            } && width == image[0].len() && l == limit)
            &&& image[0].len() <= limit < image.len() ==> (second matches GpuAction::Finish {
                result: Err(GpuError::HeightExceedsLimit { height, limit: l }),
            } && height == image.len() && l == limit)
            &&& image[0].len() <= limit && image.len() <= limit ==> (second matches
                GpuAction::Test { test } && {
                &&& test.width == if image[0].len() <= 16 {
                    image[0].len()
                } else {
                    16
                }
                &&& test.height == if image.len() <= 16 {
                    image.len()
                } else {
                    16
                }
                &&& test.width <= 8 * test.dispatch_x < test.width + 8
                &&& test.height <= 8 * test.dispatch_y < test.height + 8
                &&& test.bytes_per_row == 256
                &&& test.buffer_size == 256 * test.height
            })
        },
{
    if image.len() > 0 && image[0].len() > 0 {
        let w = if image[0].len() < 16 {
            image[0].len() as int
        } else {
            16
        };
        let h = if image.len() < 16 {
            image.len() as int
        } else {
            16
        };
        law_groups_cover(w, 8);
        law_groups_cover(h, 8);
        assert(padded_row(w) == 256);
    }
}

/// What a trial of the device decides: a failure and a buffer whose first hundred bytes are all
/// zero end the blur, and anything else starts it.
pub proof fn law_trial_decides<E: Fn(F32) -> F32>(
    blur: GpuGaussianBlur,
    exp: E,
    image: Seq<Seq<Pixel>>,
    data: Result<Vec<u8>, String>,
    action: GpuAction,
)
    requires
        blur.follows(exp, image, GpuEvent::Tested { data }, action),
    ensures
        data matches Err(reason) ==> action == (GpuAction::Finish {
            result: Err(GpuError::WriteTestError { reason }),
        }),
        data matches Ok(data) ==> {
            &&& (forall|i: int| 0 <= i < 100 && i < data@.len() ==> data@[i] == 0) ==> action
                == (GpuAction::Finish { result: Err(GpuError::WriteTestFailed) })
            &&& (exists|i: int| 0 <= i < 100 && i < data@.len() && data@[i] != 0) ==> action is Blur
        },
{
}

/// What an analysis of an output looks at: as many pixels as the image has and the bytes hold, but
/// no more than a thousand.
pub proof fn law_analysis_is_bounded(len: nat, pixels: nat, other: nat)
    requires
        other <= 1000,
        other <= pixels,
        4 * other <= len,
    ensures
        analyzed_pixels(len, pixels) <= 1000,
        analyzed_pixels(len, pixels) <= pixels,
        4 * analyzed_pixels(len, pixels) <= len,
        other <= analyzed_pixels(len, pixels),
{
}

/// What an analysis counts: the pixels whose four bytes are not all zero.
pub proof fn law_analysis_counts_pixels(bytes: Seq<u8>, n: nat)
    ensures
        showing_pixels(bytes, n) == total(
            |p: int|
                if bytes[4 * p] == 0 && bytes[4 * p + 1] == 0 && bytes[4 * p + 2] == 0 && bytes[4
                    * p + 3] == 0 {
                    0int
                } else {
                    1int
                },
            n,
        ),
    decreases n,
{
    if n > 0 {
        law_analysis_counts_pixels(bytes, (n - 1) as nat);
        assert(pixel_shows(bytes, n - 1) || !pixel_shows(bytes, n - 1));
    }
}

/// Metal is handed an image if and only if the bytes are four for each pixel, with the given sigma
/// or that of the blur, and otherwise the number of bytes that were expected and that came.
pub proof fn law_metal_job_says_all(
    blur: MetalMPSBlur,
    image_data: &[u8],
    width: u32,
    height: u32,
    sigma: Option<F32>,
    result: Result<MpsJob, MpsError>,
)
    requires
        call_ensures(
            MetalMPSBlur::blur_to_bytes,
            (&blur, image_data, width, height, sigma),
            result,
        ),
        4 * (width * height) <= u32::MAX,
        4 * width <= u32::MAX,
    ensures
        image_data@.len() == 4 * (width * height) <==> result is Ok,
        result matches Ok(job) ==> {
            &&& job.sigma == match sigma {
                Some(s) => s,
                None => blur.spec_sigma(),
            }
            &&& job.width == width
            &&& job.height == height
            &&& job.bytes_per_row == 4 * job.width
            &&& job.output_size == job.bytes_per_row * job.height
            &&& job.is_large <==> job.width > 4096 || job.height > 4096
        },
        result matches Err(MpsError::SizeMismatch { expected, got }) ==> expected == 4 * (width
            * height) && (image_data@.len() <= usize::MAX ==> got == image_data@.len()),
{
    assert(width * height >= 0) by (nonlinear_arith);
    assert((4 * width) * height == 4 * (width * height)) by (nonlinear_arith);
}

/// A new Metal blur keeps its sigma, and blurring in one step is making one and blurring with it.
pub proof fn law_metal_in_one_step(
    image_data: &[u8],
    width: u32,
    height: u32,
    sigma: F32,
    kernel_size: Option<u32>,
    blur: MetalMPSBlur,
    made: Result<MpsJob, MpsError>,
    result: Result<MpsJob, MpsError>,
)
    requires
        call_ensures(MetalMPSBlur::new, (sigma, kernel_size), blur),
        call_ensures(
            MetalMPSBlur::blur_to_bytes,
            (&blur, image_data, width, height, None::<F32>),
            made,
        ),
        call_ensures(blur_with_metal, (image_data, width, height, sigma), result),
    ensures
        blur.spec_sigma() == sigma,
        made == result,
{
}

/// A blur is seen if and only if in one of the first ten pixels the colours differ by more than
/// ten in all, whichever way; so what is not changed shows none.
pub proof fn law_blur_is_seen(input: Seq<u8>, output: Seq<u8>, p: int, r: int, g: int, b: int)
    requires
        0 <= p < 10,
        4 * p + 3 < input.len(),
        4 * p + 3 < output.len(),
    ensures
        shows_blur(input, output) == shows_blur(output, input),
        !shows_blur(input, input),
        ({
            &&& r >= 0 && g >= 0 && b >= 0 && r + g + b > 10
            &&& input[4 * p] + r == output[4 * p] || output[4 * p] + r == input[4 * p]
            &&& input[4 * p + 1] + g == output[4 * p + 1] || output[4 * p + 1] + g == input[4 * p
                + 1]
            &&& input[4 * p + 2] + b == output[4 * p + 2] || output[4 * p + 2] + b == input[4 * p
                + 2]
        }) ==> shows_blur(input, output),
        (forall|q: int|
            0 <= q < 10 && 4 * q + 3 < input.len() && 4 * q + 3 < output.len() ==> (
            #[trigger] input[4 * q]) == output[4 * q] && input[4 * q + 1] == output[4 * q + 1]
                && input[4 * q + 2] == output[4 * q + 2]) ==> !shows_blur(input, output),
{
    assert forall|q: int| #[trigger] pixel_distance(input, output, q) == pixel_distance(
        output,
        input,
        q,
    ) by {}
    if shows_blur(output, input) {
        let q = choose|q: int|
            0 <= q < 10 && 4 * q + 3 < input.len() && 4 * q + 3 < output.len() && #[trigger]
                pixel_distance(output, input, q) > 10;
        assert(pixel_distance(input, output, q) > 10);
    }
    assert(pixel_distance(input, output, p) > 10 ==> shows_blur(input, output));
}

/// A word of bytes that are put together is a word of the first or of the second.
proof fn lemma_held_word_of_both(a: Seq<u8>, b: Seq<u8>, words: int, k: int)
    requires
        a.len() == 4 * words,
        0 <= k,
        4 * k + 3 < a.len() + b.len(),
    ensures
        held_word(a + b, k, true) == if k < words {
            held_word(a, k, true)
        } else {
            held_word(b, k - words, true)
        },
{
}

/// One number of a mask, from its bytes.
proof fn lemma_mask_row(mask: Seq<Seq<F32>>, width: nat, y: int, x: int)
    requires
        forall|j: int| 0 <= j < mask.len() ==> (#[trigger] mask[j]).len() == width,
        0 <= y < mask.len(),
        0 <= x < width,
    ensures
        held_word(mask_bytes(mask), y * width + x, true) == mask[y][x].bits,
    decreases mask.len(),
{
    let n = mask.len() - 1;
    let rest = mask.drop_last();
    let row = mask.last();
    let words = patterns(row);
    let k = y * width + x;
    assert forall|j: int| 0 <= j < rest.len() implies (#[trigger] rest[j]).len() == width by {
        assert(rest[j] == mask[j]);
    }
    lemma_mask_len(rest, width);
    assert(row == mask[n]);
    let before = width * n;
    assert(0 <= k < before + width && (y < n ==> k < before) && (y == n ==> k == before + x))
        by (nonlinear_arith)
        requires
            k == y * width + x,
            before == width * n,
            0 <= y <= n,
            0 <= x < width,
    ;
    lemma_held_word_of_both(mask_bytes(rest), little_endian(words), before, k);
    if y < n {
        lemma_mask_row(rest, width, y, x);
        assert(rest[y] == mask[y]);
    } else {
        lemma_held_word(words, x);
    }
}

/// The number of bytes of a mask.
proof fn lemma_mask_len(mask: Seq<Seq<F32>>, width: nat)
    requires
        forall|j: int| 0 <= j < mask.len() ==> (#[trigger] mask[j]).len() == width,
    ensures
        mask_bytes(mask).len() == 4 * (width * mask.len()),
    decreases mask.len(),
{
    if mask.len() > 0 {
        let n = mask.len() - 1;
        let rest = mask.drop_last();
        assert forall|j: int| 0 <= j < rest.len() implies (#[trigger] rest[j]).len() == width by {
            assert(rest[j] == mask[j]);
        }
        lemma_mask_len(rest, width);
        assert(mask.last() == mask[n]);
        assert(width * (n + 1) == width * n + width) by (nonlinear_arith);
    }
}

/// The job of a variable blur holds the image, the mask with four bytes for each number, the
/// lowest first, the size, and the parameters: the rectangle from zero to the width and the height
/// as numbers, the largest radius and number of samples, one for the pass down the columns and
/// zero for the one across the rows, and one or zero for the treatment of edges. Workgroups of
/// sixteen by sixteen cover the image.
pub proof fn law_variable_job_says_all(
    blur: MetalGpuGaussianBlur,
    image: Seq<Seq<Pixel>>,
    mask: Seq<Seq<F32>>,
    event: VariableBlurEvent,
    job: VariableBlurJob,
)
    requires
        blur.follows(image, mask, event, VariableBlurAction::Blur { job }),
        is_rectangular(image),
        !is_blank(image),
        image[0].len() < 0x100_0000,
        image.len() < 0x100_0000,
        mask.len() == image.len(),
        forall|y: int| 0 <= y < mask.len() ==> (#[trigger] mask[y]).len() == image[0].len(),
    ensures
        job.upload@ == image_bytes(image),
        job.width == image[0].len(),
        job.height == image.len(),
        job.bytes_per_row == 4 * job.width,
        job.buffer_size == job.bytes_per_row * job.height,
        job.mask@.len() == job.buffer_size,
        forall|y: int, x: int|
            #![trigger mask[y][x]]
            0 <= y < mask.len() && 0 <= x < image[0].len() ==> held_word(
                job.mask@,
                y * job.width + x,
                true,
            ) == mask[y][x].bits,
        job.width <= 16 * job.dispatch_x < job.width + 16,
        job.height <= 16 * job.dispatch_y < job.height + 16,
        hold_words(
            job.horizontal@,
            seq![
                0,
                0,
                of_int(image[0].len() as int).bits,
                of_int(image.len() as int).bits,
                blur.spec_max_radius().bits,
                blur.spec_max_samples().bits,
                0u32,
                if blur.normalizes_edges() { 0x3f80_0000u32 } else { 0u32 },
                0,
                0,
                0,
                0,
            ],
        ),
        hold_words(
            job.vertical@,
            seq![
                0,
                0,
                of_int(image[0].len() as int).bits,
                of_int(image.len() as int).bits,
                blur.spec_max_radius().bits,
                blur.spec_max_samples().bits,
                0x3f80_0000u32,
                if blur.normalizes_edges() { 0x3f80_0000u32 } else { 0u32 },
                0,
                0,
                0,
                0,
            ],
        ),
        one().bits == 0x3f80_0000,
        of_int(job.width as int).scaled() == job.width * pow2(149),
        of_int(job.height as int).scaled() == job.height * pow2(149),
{
    let width = image[0].len() as int;
    let height = image.len() as int;
    lemma_of_int_exact(width as nat);
    lemma_of_int_exact(height as nat);
    law_groups_cover(width, 16);
    law_groups_cover(height, 16);
    lemma_mask_len(mask, image[0].len());
    assert(4 * (width * height) == (4 * width) * height) by (nonlinear_arith);
    assert forall|y: int, x: int|
        #![trigger mask[y][x]]
        0 <= y < mask.len() && 0 <= x < image[0].len() implies held_word(
        job.mask@,
        y * job.width + x,
        true,
    ) == mask[y][x].bits by {
        lemma_mask_row(mask, image[0].len(), y, x);
    }
    let radius = blur.spec_max_radius();
    let samples = blur.spec_max_samples();
    let edges = blur.normalizes_edges();
    let across = uniform_words(width, height, radius, samples, false, edges);
    let down = uniform_words(width, height, radius, samples, true, edges);
    law_memory_holds_words(job.horizontal@, across);
    law_memory_holds_words(job.vertical@, down);
    assert(across =~= seq![
        0,
        0,
        of_int(image[0].len() as int).bits,
        of_int(image.len() as int).bits,
        blur.spec_max_radius().bits,
        blur.spec_max_samples().bits,
        0u32,
        if blur.normalizes_edges() { 0x3f80_0000u32 } else { 0u32 },
        0,
        0,
        0,
        0,
    ]);
    assert(down =~= seq![
        0,
        0,
        of_int(image[0].len() as int).bits,
        of_int(image.len() as int).bits,
        blur.spec_max_radius().bits,
        blur.spec_max_samples().bits,
        0x3f80_0000u32,
        if blur.normalizes_edges() { 0x3f80_0000u32 } else { 0u32 },
        0,
        0,
        0,
        0,
    ]);
}

/// How a variable blur begins and ends: a mask of another size than the image is refused with both
/// sizes, too wide an image with the limit, and what the device sends back comes out with the width
/// and the height of the image.
pub proof fn law_variable_blur_steps(
    blur: MetalGpuGaussianBlur,
    image: Seq<Seq<Pixel>>,
    mask: Seq<Seq<F32>>,
    limit: u32,
    data: Vec<u8>,
    first: VariableBlurAction,
    second: VariableBlurAction,
    last: VariableBlurAction,
)
    requires
        !is_blank(image),
        blur.follows(image, mask, VariableBlurEvent::Start, first),
        blur.follows(
            image,
            mask,
            VariableBlurEvent::Limit { max_texture_dimension: limit },
            second,
        ),
        blur.follows(image, mask, VariableBlurEvent::Blurred { data: Ok(data) }, last),
        image[0].len() < 0x1_0000_0000,
    ensures
        mask.len() == image.len() && mask[0].len() == image[0].len() <==> first is AskLimit,
        !(first is AskLimit) ==> (first matches VariableBlurAction::Finish {
            result: Err(GpuError::MaskMismatch { mask_height, mask_width, height, width }),
        } && {
            &&& mask_height == mask.len()
            &&& mask.len() > 0 ==> mask_width == mask[0].len()
            &&& mask.len() == 0 ==> mask_width == 0
            &&& height == image.len()
            &&& width == image[0].len()
        }),
        image[0].len() <= limit <==> second is Blur,
        image[0].len() > limit ==> (second matches VariableBlurAction::Finish {
            result: Err(GpuError::WidthExceedsLimit { width, limit: l }),
        } && width == image[0].len() && l == limit),
        last matches VariableBlurAction::Finish { result: Ok((bytes, width, height)) } && bytes@
            == data@ && width == image[0].len() && height == image.len(),
{
}

/// A variable blur of an image without pixels is done at once.
pub proof fn law_variable_blur_of_nothing(
    blur: MetalGpuGaussianBlur,
    image: Seq<Seq<Pixel>>,
    mask: Seq<Seq<F32>>,
    action: VariableBlurAction,
)
    requires
        image.len() == 0 || image[0].len() == 0,
        blur.follows(image, mask, VariableBlurEvent::Start, action),
    ensures
        action matches VariableBlurAction::Finish { result: Ok((bytes, width, height)) }
            && bytes@.len() == 0 && width == 0 && height == 0,
{
}

/// A mask of ones has the size of the image, and one everywhere.
pub proof fn law_full_mask_is_one(image: Seq<Seq<Pixel>>, y: int, x: int)
    requires
        0 <= y < image.len(),
        0 <= x < image[0].len(),
    ensures
        full_mask(image).len() == image.len(),
        full_mask(image)[y].len() == image[0].len(),
        full_mask(image)[y][x].scaled() == pow2(149),
{
    lemma_root_of_one();
}

/// A new variable blur keeps what it is given, and takes sixteen samples where it is given no
/// number of them.
pub proof fn law_new_variable_blur(
    max_radius: F32,
    max_samples: Option<F32>,
    normalize_edges: bool,
    blur: MetalGpuGaussianBlur,
    radius: F32,
    samples: F32,
    edges: bool,
)
    requires
        call_ensures(
            MetalGpuGaussianBlur::new,
            (max_radius, max_samples, normalize_edges),
            blur,
        ),
        call_ensures(MetalGpuGaussianBlur::max_radius, (&blur,), radius),
        call_ensures(MetalGpuGaussianBlur::max_samples, (&blur,), samples),
        call_ensures(MetalGpuGaussianBlur::normalize_edges, (&blur,), edges),
    ensures
        radius == max_radius,
        max_samples matches Some(n) ==> samples == n,
        max_samples is None ==> samples.is_finite() && samples.scaled() == 16 * pow2(149),
        edges == normalize_edges,
{
    lemma_of_int_exact(16);
}

/// A blur without a mask gives at every event the answer of a blur with a mask that is one at every
/// pixel.
pub proof fn law_uniform_blur_masks_nothing(
    blur: MetalGpuGaussianBlur,
    image: &[Vec<Pixel>],
    mask: &[Vec<F32>],
    event: VariableBlurEvent,
    uniform: VariableBlurAction,
    masked: VariableBlurAction,
)
    requires
        call_ensures(MetalGpuGaussianBlur::blur_uniform, (&blur, image, event), uniform),
        call_ensures(
            MetalGpuGaussianBlur::blur_with_mask_to_bytes,
            (&blur, image, mask, event),
            masked,
        ),
        image@.len() > 0,
        mask@.len() == image@.len(),
        forall|y: int| 0 <= y < mask@.len() ==> (#[trigger] mask@[y])@.len() == image@[0]@.len(),
        forall|y: int, x: int|
            0 <= y < mask@.len() && 0 <= x < image@[0]@.len() ==> !(
            #[trigger] mask@[y]@[x]).negative() && mask@[y]@[x].scaled() == pow2(149),
    ensures
        same_action(uniform, masked),
{
    let pixels = pixels_of(image@);
    let values = values_of(mask@);
    let full = full_mask(pixels);
    assert(values =~= full) by {
        assert forall|y: int| 0 <= y < full.len() implies values[y] =~= full[y] by {
            assert(mask@[y]@.len() == image@[0]@.len());
            assert forall|x: int| 0 <= x < full[y].len() implies values[y][x] == full[y][x] by {
                let v = mask@[y]@[x];
                lemma_root_of_one();
                if v.magnitude() < one().magnitude() {
                    lemma_grid_increases(v.magnitude(), one().magnitude());
                } else if one().magnitude() < v.magnitude() {
                    lemma_grid_increases(one().magnitude(), v.magnitude());
                }
                lemma_of_parts(v);
            }
        }
    }
    law_uniform_blur_is_full_mask(blur, pixels, event, uniform, masked);
}

/// What the errors say.
pub proof fn law_messages(error: GpuError, message: String)
    requires
        call_ensures(GpuError::message, (&error,), message),
    ensures
        error matches GpuError::WidthExceedsLimit { width, limit } ==> message@ == "Image width "@
            + decimal(width as nat) + " exceeds GPU texture dimension limit "@ + decimal(
            limit as nat,
        ),
        error matches GpuError::HeightExceedsLimit { height, limit } ==> message@
            == "Image height "@ + decimal(height as nat) + " exceeds GPU texture dimension limit "@
            + decimal(limit as nat),
        error matches GpuError::MaskMismatch { mask_height, mask_width, height, width } ==> message@
            == "Mask dimensions "@ + decimal(mask_height as nat) + "x"@ + decimal(
            mask_width as nat,
        ) + " don't match image dimensions "@ + decimal(height as nat) + "x"@ + decimal(
            width as nat,
        ),
        error is WriteTestFailed ==> message@
            == "GPU write test failed - check shader compilation and texture usage"@,
        error matches GpuError::WriteTestError { reason } ==> message@ == "GPU write test error: "@
            + reason@,
        error matches GpuError::Device { reason } ==> message@ == reason@,
{
}

/// What the error of a Metal blur says.
pub proof fn law_metal_message(expected: u32, got: usize, message: String)
    requires
        call_ensures(MpsError::message, (&MpsError::SizeMismatch { expected, got },), message),
    ensures
        message@ == "Image data size mismatch: expected "@ + decimal(expected as nat)
            + " bytes, got "@ + decimal(got as nat) + " bytes"@,
{
}

} // verus!
