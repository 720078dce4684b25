//! What holds of the processors, whatever way they are asked.

use crate::accuracy::{law_gaussian_blurs_agree, law_normalized_weights_are_ordinary};
use crate::blur::{blurred_or_empty, is_blank, simple_gaussian_blur, GaussianBlur};
use crate::brightness::{
    decays, law_kernel_from_exponentials_is_normalized, MAX_BOUNDED_WEIGHTS,
};
use crate::bytes::{
    flattened, image_bytes, image_from_bytes, is_rectangular, law_bytes_round_trip,
    law_flattened_image,
};
use crate::float::numbers::one;
use crate::float::order::is_plain;
use crate::float::repr::{grid, F32};
use crate::identity::law_radius_zero_is_identity;
use crate::gpu::processor::GpuGaussianBlur;
use crate::kernel::{choose_radius, effective_radius, is_gaussian, GaussianKernel};
use crate::kernel_laws::law_default_radius_is_three_sigma;
use crate::laws::{is_deterministic, law_alpha_is_kept, law_kernel_is_unique};
use crate::monotone::{at_most_near, law_blur_keeps_order};
use crate::pixel::{channel, Pixel};
use crate::sampling::{pixels_of, reach};
use crate::separable::blurred;
use crate::sums::{lemma_total_of_equal_terms, total};
use crate::unified::{BackendReply, BackendRequest, BlurBackend, Settings, UnifiedGaussianBlur};
use crate::window_mean::{are_nearest_places, law_blur_is_mean_of_window};
use vstd::arithmetic::power2::pow2;
use vstd::prelude::*;

verus! {

/// Whether a processor was made with this exponential function, for a sigma from two to the power
/// of minus 40 to two to the power of 40.
pub open spec fn is_ordinary<E: Fn(F32) -> F32>(exp: E, blur: GaussianBlur) -> bool {
    &&& is_plain(blur.spec_sigma())
    &&& blur.spec_sigma().is_finite()
    &&& pow2(109) <= grid(blur.spec_sigma().magnitude()) <= pow2(189)
    &&& is_gaussian(exp, blur.spec_radius(), blur.spec_sigma(), blur.weights())
}

/// Whether two processors have the same radius, sigma and treatment of alpha.
pub open spec fn same_settings(a: GaussianBlur, b: GaussianBlur) -> bool {
    &&& a.spec_radius() == b.spec_radius()
    &&& a.spec_sigma() == b.spec_sigma()
    &&& a.blurs_alpha() == b.blurs_alpha()
}

/// The number of threads changes no pixel, and neither does asking again: two processors with the
/// same settings blur every image alike.
pub proof fn law_threads_do_not_matter<E: Fn(F32) -> F32>(
    exp: E,
    a: GaussianBlur,
    b: GaussianBlur,
    image: Seq<Seq<Pixel>>,
)
    requires
        is_deterministic(exp),
        is_gaussian(exp, a.spec_radius(), a.spec_sigma(), a.weights()),
        is_gaussian(exp, b.spec_radius(), b.spec_sigma(), b.weights()),
        same_settings(a, b),
        a.uses_lanes() == b.uses_lanes(),
    ensures
        a.output(image) == b.output(image),
{
    law_kernel_is_unique(exp, a.spec_radius(), a.spec_sigma(), a.weights(), b.weights());
}

/// A processor with lanes and one without give images of one size, whose channels differ by one
/// step at most.
pub proof fn law_processors_agree<E: Fn(F32) -> F32>(
    exp: E,
    lanes: GaussianBlur,
    scalar: GaussianBlur,
    image: Seq<Seq<Pixel>>,
    y: int,
    x: int,
    c: int,
)
    requires
        decays(exp),
        is_deterministic(exp),
        is_ordinary(exp, lanes),
        is_ordinary(exp, scalar),
        same_settings(lanes, scalar),
        lanes.uses_lanes(),
        !scalar.uses_lanes(),
        0 <= scalar.spec_radius() <= 680,
        0 <= y < image.len(),
        0 <= x < image[0].len(),
        0 <= c < 4,
    ensures
        lanes.output(image).len() == scalar.output(image).len(),
        lanes.output(image)[y].len() == scalar.output(image)[y].len(),
        ({
            let a = channel(lanes.output(image)[y][x], c);
            let b = channel(scalar.output(image)[y][x], c);
            a - 1 <= b <= a + 1
        }),
{
    law_kernel_is_unique(
        exp,
        lanes.spec_radius(),
        lanes.spec_sigma(),
        lanes.weights(),
        scalar.weights(),
    );
    law_gaussian_blurs_agree(
        exp,
        scalar.spec_radius(),
        scalar.spec_sigma(),
        scalar.weights(),
        image,
        scalar.blurs_alpha(),
        y,
        x,
        c,
    );
}

/// A processor keeps the order of images: where no channel of the first is above that of the
/// second, none is in the blurred images either.
pub proof fn law_processor_keeps_order<E: Fn(F32) -> F32>(
    exp: E,
    blur: GaussianBlur,
    p: Seq<Seq<Pixel>>,
    q: Seq<Seq<Pixel>>,
    y: int,
    x: int,
    c: int,
)
    requires
        decays(exp),
        is_ordinary(exp, blur),
        0 <= blur.spec_radius(),
        2 * blur.spec_radius() + 1 <= MAX_BOUNDED_WEIGHTS,
        p.len() == q.len(),
        p[0].len() == q[0].len(),
        forall|j: int, i: int|
            0 <= j < p.len() && 0 <= i < p[0].len() ==> channel(#[trigger] p[j][i], c) <= channel(
                q[j][i],
                c,
            ),
        0 <= y < p.len(),
        0 <= x < p[0].len(),
        0 <= c < 4,
    ensures
        channel(blur.output(p)[y][x], c) <= channel(blur.output(q)[y][x], c),
{
    let weights = blur.weights();
    law_kernel_from_exponentials_is_normalized(exp, blur.spec_radius(), blur.spec_sigma(), weights);
    law_normalized_weights_are_ordinary(weights);
    assert(at_most_near(p, q, c, reach(weights), y, x));
    law_blur_keeps_order(p, q, weights, blur.blurs_alpha(), blur.uses_lanes(), y, x, c);
}

/// A processor with a radius of zero gives every rectangular image back.
pub proof fn law_processor_of_radius_zero<E: Fn(F32) -> F32>(
    exp: E,
    blur: GaussianBlur,
    image: Seq<Seq<Pixel>>,
)
    requires
        decays(exp),
        is_ordinary(exp, blur),
        blur.spec_radius() == 0,
        is_rectangular(image),
        !is_blank(image),
    ensures
        blur.output(image) == image,
{
    assert forall|z: F32, r: F32| z.is_zero() && #[trigger] call_ensures(exp, (z,), r) implies r
        == one() by {}
    law_radius_zero_is_identity(
        exp,
        image,
        blur.spec_sigma(),
        blur.weights(),
        blur.blurs_alpha(),
        blur.uses_lanes(),
    );
}

/// Without a reply of a graphics backend, the unified processor does what the processor with its
/// settings does, and the way through bytes loses nothing.
pub proof fn law_unified_blur_is_processor_blur<E: Fn(F32) -> F32>(
    exp: E,
    settings: Settings,
    blur: GaussianBlur,
    image: Seq<Seq<Pixel>>,
    output: Seq<Seq<Pixel>>,
)
    requires
        is_deterministic(exp),
        is_gaussian(exp, blur.spec_radius(), blur.spec_sigma(), blur.weights()),
        blur.spec_radius() == settings.kernel_radius(),
        blur.spec_sigma() == settings.sigma,
        blur.blurs_alpha() == settings.blur_alpha,
        blur.uses_lanes() == settings.use_simd,
        settings.is_processor_output(exp, image, output),
    ensures
        output == blur.output(image),
        !is_blank(image) ==> image_from_bytes(
            image_bytes(output),
            image[0].len() as int,
            image.len() as int,
        ) == output,
{
    let weights = choose|weights: Seq<F32>| #[trigger]
        is_gaussian(exp, settings.kernel_radius(), settings.sigma, weights) && output
            == blurred_or_empty(image, weights, settings.blur_alpha, settings.use_simd);
    law_kernel_is_unique(exp, blur.spec_radius(), blur.spec_sigma(), weights, blur.weights());
    if !is_blank(image) {
        assert(output == blurred(image, weights, settings.blur_alpha, settings.use_simd));
        law_bytes_round_trip(output);
    }
}

/// What the graphics processor answers is what comes out: bytes of any picture, with its width
/// and its height, come out as they are, with the width second and the height third, and as
/// pixels they are that picture.
pub proof fn law_gpu_reply_comes_out<E: Fn(F32) -> F32>(
    exp: &E,
    blur: UnifiedGaussianBlur,
    image: &[Vec<Pixel>],
    picture: Seq<Seq<Pixel>>,
    bytes: Vec<u8>,
    width: usize,
    height: usize,
    out: Result<(Vec<u8>, u32, u32), String>,
    pixels: Vec<Vec<Pixel>>,
)
    requires
        call_ensures(
            UnifiedGaussianBlur::blur_to_bytes::<E>,
            (&blur, image, BackendReply::Gpu { bytes, width, height }, exp),
            out,
        ),
        call_ensures(
            UnifiedGaussianBlur::blur::<E>,
            (&blur, image, BackendReply::Gpu { bytes, width, height }, exp),
            pixels,
        ),
        blur@.backend == BlurBackend::Gpu,
        image@.len() > 0,
        is_rectangular(picture),
        !is_blank(picture),
        width == picture[0].len(),
        height == picture.len(),
        width < 0x1_0000_0000,
        height < 0x1_0000_0000,
        bytes@ == image_bytes(picture),
    ensures
        out matches Ok((b, w, h)) && b@ == bytes@ && w == width && h == height,
        pixels_of(pixels@) == picture,
{
    law_bytes_round_trip(picture);
}

/// The same of the Metal backend, whose answer is a picture of the size of the image.
pub proof fn law_metal_reply_comes_out<E: Fn(F32) -> F32>(
    exp: &E,
    blur: UnifiedGaussianBlur,
    image: &[Vec<Pixel>],
    picture: Seq<Seq<Pixel>>,
    bytes: Vec<u8>,
    out: Result<(Vec<u8>, u32, u32), String>,
    pixels: Vec<Vec<Pixel>>,
)
    requires
        call_ensures(
            UnifiedGaussianBlur::blur_to_bytes::<E>,
            (&blur, image, BackendReply::Metal { bytes }, exp),
            out,
        ),
        call_ensures(
            UnifiedGaussianBlur::blur::<E>,
            (&blur, image, BackendReply::Metal { bytes }, exp),
            pixels,
        ),
        blur@.backend == BlurBackend::Metal,
        is_rectangular(picture),
        !is_blank(picture),
        picture.len() == image@.len(),
        picture[0].len() == image@[0]@.len(),
        image@.len() < 0x1_0000_0000,
        image@[0]@.len() < 0x1_0000_0000,
        bytes@ == image_bytes(picture),
    ensures
        out matches Ok((b, w, h)) && b@ == bytes@ && w == image@[0]@.len() && h == image@.len(),
        pixels_of(pixels@) == picture,
{
    law_bytes_round_trip(picture);
}

/// What a graphics backend is asked for: the graphics processor gets the settings, and Metal gets
/// sigma, its kernel size and the bytes, the width and the height of the image.
pub proof fn law_request_says_all(
    blur: UnifiedGaussianBlur,
    image: &[Vec<Pixel>],
    request: Option<BackendRequest>,
)
    requires
        call_ensures(UnifiedGaussianBlur::request, (&blur, image), request),
        0 < image@.len() < 0x1_0000_0000,
        image@[0]@.len() < 0x1_0000_0000,
    ensures
        match blur@.backend {
            BlurBackend::Cpu => request is None,
            BlurBackend::Gpu => request matches Some(
                BackendRequest::Gpu { sigma, radius, blur_alpha },
            ) && sigma == blur@.sigma && radius == blur@.radius && blur_alpha == blur@.blur_alpha,
            BlurBackend::Metal => request matches Some(
                BackendRequest::Metal { sigma, kernel_size, bytes, width, height },
            ) && sigma == blur@.sigma && kernel_size == blur@.metal_kernel_size && bytes@
                == image_bytes(pixels_of(image@)) && width == image@[0]@.len() && height
                == image@.len(),
        },
{
    law_flattened_image(pixels_of(image@));
}

/// Without an answer the processor blurs, and the bytes that come out are those of the pixels
/// that come out, with the width and the height of the image.
pub proof fn law_unified_bytes_are_pixels<E: Fn(F32) -> F32>(
    exp: &E,
    blur: UnifiedGaussianBlur,
    image: &[Vec<Pixel>],
    out: Result<(Vec<u8>, u32, u32), String>,
    pixels: Vec<Vec<Pixel>>,
)
    requires
        call_ensures(
            UnifiedGaussianBlur::blur_to_bytes::<E>,
            (&blur, image, BackendReply::Nothing, exp),
            out,
        ),
        call_ensures(
            UnifiedGaussianBlur::blur::<E>,
            (&blur, image, BackendReply::Nothing, exp),
            pixels,
        ),
        is_deterministic(*exp),
        !is_blank(pixels_of(image@)),
        image@.len() < 0x1_0000_0000,
        image@[0]@.len() < 0x1_0000_0000,
    ensures
        out matches Ok((b, w, h)) && b@ == image_bytes(pixels_of(pixels@)) && w
            == image@[0]@.len() && h == image@.len(),
{
    let image = pixels_of(image@);
    let output = choose|output: Seq<Seq<Pixel>>| #[trigger]
        blur@.is_processor_output(*exp, image, output) && (out->Ok_0.0@, out->Ok_0.1, out->Ok_0.2)
            == flattened(output);
    let a = choose|weights: Seq<F32>| #[trigger]
        is_gaussian(*exp, blur@.kernel_radius(), blur@.sigma, weights) && output
            == blurred_or_empty(image, weights, blur@.blur_alpha, blur@.use_simd);
    let b = choose|weights: Seq<F32>| #[trigger]
        is_gaussian(*exp, blur@.kernel_radius(), blur@.sigma, weights) && pixels_of(pixels@)
            == blurred_or_empty(image, weights, blur@.blur_alpha, blur@.use_simd);
    law_kernel_is_unique(*exp, blur@.kernel_radius(), blur@.sigma, a, b);
    law_flattened_image(output);
}

/// Without an answer of a graphics backend the unified blur gives what the processor with its
/// settings gives.
pub proof fn law_unified_pixels_are_processor_pixels<E: Fn(F32) -> F32>(
    exp: &E,
    unified: UnifiedGaussianBlur,
    blur: GaussianBlur,
    image: &[Vec<Pixel>],
    pixels: Vec<Vec<Pixel>>,
    result: Vec<Vec<Pixel>>,
)
    requires
        call_ensures(
            UnifiedGaussianBlur::blur::<E>,
            (&unified, image, BackendReply::Nothing, exp),
            pixels,
        ),
        call_ensures(GaussianBlur::blur, (&blur, image), result),
        is_deterministic(*exp),
        is_gaussian(*exp, blur.spec_radius(), blur.spec_sigma(), blur.weights()),
        blur.spec_radius() == effective_radius(unified@.sigma, unified@.radius),
        blur.spec_sigma() == unified@.sigma,
        blur.blurs_alpha() == unified@.blur_alpha,
        blur.uses_lanes() == unified@.use_simd,
        !is_blank(pixels_of(image@)),
    ensures
        pixels_of(pixels@) == pixels_of(result@),
{
    law_unified_blur_is_processor_blur(
        *exp,
        unified@,
        blur,
        pixels_of(image@),
        pixels_of(pixels@),
    );
}

/// A rectangular image that is made bytes and pixels again is the same, with its width second and
/// its height third on the way.
pub proof fn law_image_to_bytes_and_back(
    image: &[Vec<Pixel>],
    bytes: &[u8],
    flat: (Vec<u8>, u32, u32),
    back: Vec<Vec<Pixel>>,
)
    requires
        call_ensures(UnifiedGaussianBlur::image_to_bytes, (image,), flat),
        bytes@ == flat.0@,
        call_ensures(UnifiedGaussianBlur::bytes_to_image, (bytes, flat.1, flat.2), back),
        is_rectangular(pixels_of(image@)),
        !is_blank(pixels_of(image@)),
        image@.len() < 0x1_0000_0000,
        image@[0]@.len() < 0x1_0000_0000,
    ensures
        flat.1 == image@[0]@.len(),
        flat.2 == image@.len(),
        pixels_of(back@) == pixels_of(image@),
{
    law_flattened_image(pixels_of(image@));
    law_bytes_round_trip(pixels_of(image@));
}

/// The way to the processor that is taken where no backend answers is the one that can be taken
/// directly.
pub proof fn law_fallback_is_processor_blur<E: Fn(F32) -> F32>(
    exp: &E,
    blur: UnifiedGaussianBlur,
    image: &[Vec<Pixel>],
    out: Result<(Vec<u8>, u32, u32), String>,
    direct: (Vec<u8>, u32, u32),
)
    requires
        call_ensures(
            UnifiedGaussianBlur::blur_to_bytes::<E>,
            (&blur, image, BackendReply::Nothing, exp),
            out,
        ),
        call_ensures(
            UnifiedGaussianBlur::blur_to_bytes_fallback::<E>,
            (&blur, image, exp),
            direct,
        ),
        is_deterministic(*exp),
        image@.len() > 0,
    ensures
        out matches Ok((b, w, h)) && b@ == direct.0@ && w == direct.1 && h == direct.2,
{
    let image = pixels_of(image@);
    let one = choose|output: Seq<Seq<Pixel>>| #[trigger]
        blur@.is_processor_output(*exp, image, output) && (out->Ok_0.0@, out->Ok_0.1, out->Ok_0.2)
            == flattened(output);
    let two = choose|output: Seq<Seq<Pixel>>| #[trigger]
        blur@.is_processor_output(*exp, image, output) && (direct.0@, direct.1, direct.2)
            == flattened(output);
    let a = choose|weights: Seq<F32>| #[trigger]
        is_gaussian(*exp, blur@.kernel_radius(), blur@.sigma, weights) && one
            == blurred_or_empty(image, weights, blur@.blur_alpha, blur@.use_simd);
    let b = choose|weights: Seq<F32>| #[trigger]
        is_gaussian(*exp, blur@.kernel_radius(), blur@.sigma, weights) && two
            == blurred_or_empty(image, weights, blur@.blur_alpha, blur@.use_simd);
    law_kernel_is_unique(*exp, blur@.kernel_radius(), blur@.sigma, a, b);
}

/// Where there are no pixels, nothing comes out.
pub proof fn law_nothing_gives_nothing<E: Fn(F32) -> F32>(
    exp: &E,
    blur: GaussianBlur,
    unified: UnifiedGaussianBlur,
    image: &[Vec<Pixel>],
    reply: BackendReply,
    pixels: Vec<Vec<Pixel>>,
    out: Result<(Vec<u8>, u32, u32), String>,
    unified_pixels: Vec<Vec<Pixel>>,
)
    requires
        call_ensures(GaussianBlur::blur, (&blur, image), pixels),
        call_ensures(
            UnifiedGaussianBlur::blur_to_bytes::<E>,
            (&unified, image, reply, exp),
            out,
        ),
        call_ensures(
            UnifiedGaussianBlur::blur::<E>,
            (&unified, image, reply, exp),
            unified_pixels,
        ),
        is_blank(pixels_of(image@)),
    ensures
        pixels@.len() == 0,
        image@.len() == 0 || unified@.backend == BlurBackend::Cpu || reply is Nothing ==> (
        out matches Ok((b, w, h)) && b@.len() == 0 && w == 0 && h == 0) && unified_pixels@.len()
            == 0,
{
    assert(pixels_of(pixels@).len() == pixels@.len());
    assert(pixels_of(unified_pixels@).len() == unified_pixels@.len());
}

/// A new processor of each kind keeps what it is given, and one that is given no radius takes the
/// least whole number that is not below three times sigma, but for one rounding.
pub proof fn law_new_processors_take_three_sigma<E: Fn(F32) -> F32>(
    exp: &E,
    sigma: F32,
    blur_alpha: bool,
    radius: i32,
    kernel: GaussianKernel,
    processor: GaussianBlur,
    graphics: GpuGaussianBlur,
)
    requires
        call_ensures(choose_radius, (sigma, None::<i32>), radius),
        call_ensures(GaussianKernel::new::<E>, (sigma, None::<i32>, exp), kernel),
        call_ensures(GaussianBlur::new::<E>, (sigma, None::<i32>, blur_alpha, exp), processor),
        call_ensures(GpuGaussianBlur::new, (sigma, None::<i32>, blur_alpha), graphics),
        !sigma.negative(),
        sigma.is_finite(),
        3 * grid(sigma.magnitude()) < 0x7fff_ffff * pow2(149),
    ensures
        0x100_0000 * (radius * pow2(149)) >= 0xff_ffff * (3 * grid(sigma.magnitude())),
        0x100_0000 * ((radius - 1) * pow2(149)) < 0x100_0001 * (3 * grid(sigma.magnitude())),
        kernel.spec_radius() == radius,
        processor.spec_radius() == radius,
        graphics.spec_radius() == radius,
        kernel.spec_sigma() == sigma,
        processor.spec_sigma() == sigma,
        graphics.spec_sigma() == sigma,
        processor.blurs_alpha() == blur_alpha,
        graphics.blurs_alpha() == blur_alpha,
{
    law_default_radius_is_three_sigma(sigma);
}

/// The processor blurs where no graphics backend was chosen, where the chosen one gave nothing,
/// and where the answer is that of another one.
pub proof fn law_processor_stands_in(
    settings: Settings,
    image: Seq<Seq<Pixel>>,
    reply: BackendReply,
)
    ensures
        settings.accelerated(image, reply) is None <==> {
            ||| settings.backend == BlurBackend::Cpu
            ||| reply is Nothing
            ||| settings.backend == BlurBackend::Gpu && reply is Metal
            ||| settings.backend == BlurBackend::Metal && reply is Gpu
        },
{
}

/// A processor gives an image of the same size. Each channel of a pixel is the mean of the
/// pixels around it, with the weights of their rows and columns, cut off to a whole number, but
/// for the roundings; alpha is kept where it is not blurred.
pub proof fn law_processor_gives_mean<E: Fn(F32) -> F32>(
    exp: E,
    blur: GaussianBlur,
    image: &[Vec<Pixel>],
    result: Vec<Vec<Pixel>>,
    y: int,
    x: int,
    c: int,
    rows: Seq<int>,
    columns: Seq<int>,
)
    requires
        call_ensures(GaussianBlur::blur, (&blur, image), result),
        decays(exp),
        is_ordinary(exp, blur),
        0 <= blur.spec_radius(),
        2 * blur.spec_radius() + 1 <= MAX_BOUNDED_WEIGHTS,
        0 <= y < image@.len(),
        0 <= x < image@[0]@.len(),
        0 <= c < 4,
        are_nearest_places(rows, y, image@.len() as int, (2 * blur.spec_radius() + 1) as nat),
        are_nearest_places(
            columns,
            x,
            image@[0]@.len() as int,
            (2 * blur.spec_radius() + 1) as nat,
        ),
    ensures
        result@.len() == image@.len(),
        result@[y]@.len() == image@[0]@.len(),
        !blur.blurs_alpha() ==> result@[y]@[x].a == image@[y]@[x].a,
        c < 3 || blur.blurs_alpha() ==> {
            let weights = blur.weights();
            let n = (2 * blur.spec_radius() + 1) as nat;
            let t = total(|i: int| grid(weights[i].magnitude()) as int, n);
            let sum = total(
                |j: int|
                    grid(weights[j].magnitude()) * total(
                        |i: int|
                            grid(weights[i].magnitude()) * channel(
                                image@[rows[j]]@[columns[i]],
                                c,
                            ),
                        n,
                    ),
                n,
            );
            let r = channel(result@[y]@[x], c);
            let slack = 768 * (8 * n + 12);
            &&& 0x100_0000 * (r * (t * t)) <= 0x100_0000 * sum + slack * (t * t)
            &&& r < 255 ==> 0x100_0000 * sum < 0x100_0000 * ((r + 1) * (t * t)) + slack * (t * t)
                + 1
        },
{
    let weights = blur.weights();
    let n = (2 * blur.spec_radius() + 1) as nat;
    let pixels = pixels_of(image@);
    law_kernel_from_exponentials_is_normalized(exp, blur.spec_radius(), blur.spec_sigma(), weights);
    law_normalized_weights_are_ordinary(weights);
    let lanes = blur.uses_lanes();
    assert(pixels_of(result@).len() == image@.len());
    assert(pixels_of(result@)[y] == result@[y]@);
    if !blur.blurs_alpha() {
        law_alpha_is_kept(pixels, weights, lanes, 0, y, x);
    }
    if c < 3 || blur.blurs_alpha() {
        law_blur_is_mean_of_window(
            pixels,
            weights,
            blur.blurs_alpha(),
            lanes,
            y,
            x,
            c,
            rows,
            columns,
        );
        let row = |j: int|
            |i: int| grid(weights[i].magnitude()) * channel(pixels[rows[j]][columns[i]], c);
        assert forall|j: int| 0 <= j < n implies #[trigger] total(row(j), n) == total(
            |i: int| grid(weights[i].magnitude()) * channel(image@[rows[j]]@[columns[i]], c),
            n,
        ) by {
            assert(pixels[rows[j]] == image@[rows[j]]@);
            lemma_total_of_equal_terms(
                row(j),
                |i: int| grid(weights[i].magnitude()) * channel(image@[rows[j]]@[columns[i]], c),
                n,
            );
        }
        lemma_total_of_equal_terms(
            |j: int|
                grid(weights[j].magnitude()) * total(
                    |i: int|
                        grid(weights[i].magnitude()) * channel(pixels[rows[j]][columns[i]], c),
                    n,
                ),
            |j: int|
                grid(weights[j].magnitude()) * total(
                    |i: int|
                        grid(weights[i].magnitude()) * channel(image@[rows[j]]@[columns[i]], c),
                    n,
                ),
            n,
        );
    }
}

/// The simple blur gives what a processor with the same settings and without lanes gives.
pub proof fn law_simple_blur_is_processor_blur<E: Fn(F32) -> F32>(
    exp: &E,
    blur: GaussianBlur,
    radius: Option<i32>,
    image: &[Vec<Pixel>],
    simple: Vec<Vec<Pixel>>,
    result: Vec<Vec<Pixel>>,
)
    requires
        call_ensures(
            simple_gaussian_blur::<E>,
            (image, blur.spec_sigma(), radius, blur.blurs_alpha(), exp),
            simple,
        ),
        call_ensures(GaussianBlur::blur, (&blur, image), result),
        is_deterministic(*exp),
        blur.spec_radius() == effective_radius(blur.spec_sigma(), radius),
        is_gaussian(*exp, blur.spec_radius(), blur.spec_sigma(), blur.weights()),
        !blur.uses_lanes(),
        !is_blank(pixels_of(image@)),
    ensures
        pixels_of(simple@) == pixels_of(result@),
{
    let pixels = pixels_of(image@);
    let weights = choose|weights: Seq<F32>| #[trigger]
        is_gaussian(*exp, blur.spec_radius(), blur.spec_sigma(), weights) && pixels_of(simple@)
            == blurred(pixels, weights, blur.blurs_alpha(), false);
    law_kernel_is_unique(*exp, blur.spec_radius(), blur.spec_sigma(), weights, blur.weights());
}

/// A processor tells the radius and the sigma that it was made with, its kernel has a weight for
/// every distance within the radius, and neither threads nor lanes change these.
pub proof fn law_processor_tells_settings<E: Fn(F32) -> F32>(
    exp: &E,
    sigma: F32,
    radius: i32,
    blur_alpha: bool,
    threads: usize,
    lanes: bool,
    made: GaussianBlur,
    threaded: GaussianBlur,
    blur: GaussianBlur,
    told_radius: i32,
    told_sigma: F32,
)
    requires
        call_ensures(GaussianBlur::new::<E>, (sigma, Some(radius), blur_alpha, exp), made),
        call_ensures(GaussianBlur::with_threads, (made, threads), threaded),
        call_ensures(GaussianBlur::with_simd, (threaded, lanes), blur),
        call_ensures(GaussianBlur::radius, (&blur,), told_radius),
        call_ensures(GaussianBlur::sigma, (&blur,), told_sigma),
    ensures
        told_radius == radius,
        told_sigma == sigma,
        blur.weights() == made.weights(),
        blur.blurs_alpha() == blur_alpha,
        blur.threads() == Some(threads),
        blur.uses_lanes() == lanes,
        !made.uses_lanes(),
        made.threads() is None,
{
}

/// A kernel tells the radius and the sigma that it was made with, and has a weight for every
/// distance within the radius.
pub proof fn law_kernel_tells_settings<E: Fn(F32) -> F32>(
    exp: &E,
    sigma: F32,
    radius: i32,
    kernel: GaussianKernel,
    told_radius: i32,
    told_sigma: F32,
    weights: &[F32],
)
    requires
        call_ensures(GaussianKernel::new::<E>, (sigma, Some(radius), exp), kernel),
        call_ensures(GaussianKernel::radius, (&kernel,), told_radius),
        call_ensures(GaussianKernel::sigma, (&kernel,), told_sigma),
        call_ensures(GaussianKernel::kernel, (&kernel,), weights),
    ensures
        told_radius == radius,
        told_sigma == sigma,
        weights@ == kernel.weights(),
        weights@.len() == 2 * radius + 1,
{
}

/// The backend that is chosen is the one that is asked, with the settings from before, and the
/// last choice counts.
pub proof fn law_chosen_backend_is_asked(
    sigma: F32,
    radius: Option<i32>,
    blur_alpha: bool,
    kernel_size: u32,
    image: &[Vec<Pixel>],
    made: UnifiedGaussianBlur,
    sized: UnifiedGaussianBlur,
    gpu: UnifiedGaussianBlur,
    metal: UnifiedGaussianBlur,
    cpu: UnifiedGaussianBlur,
    made_asks: Option<BackendRequest>,
    gpu_asks: Option<BackendRequest>,
    metal_asks: Option<BackendRequest>,
    cpu_asks: Option<BackendRequest>,
)
    requires
        call_ensures(UnifiedGaussianBlur::new, (sigma, radius, blur_alpha), made),
        call_ensures(UnifiedGaussianBlur::with_metal_kernel_size, (made, kernel_size), sized),
        call_ensures(UnifiedGaussianBlur::with_gpu, (sized,), gpu),
        call_ensures(UnifiedGaussianBlur::with_metal, (gpu,), metal),
        call_ensures(UnifiedGaussianBlur::with_cpu, (metal,), cpu),
        call_ensures(UnifiedGaussianBlur::request, (&made, image), made_asks),
        call_ensures(UnifiedGaussianBlur::request, (&gpu, image), gpu_asks),
        call_ensures(UnifiedGaussianBlur::request, (&metal, image), metal_asks),
        call_ensures(UnifiedGaussianBlur::request, (&cpu, image), cpu_asks),
        image@.len() > 0,
    ensures
        made_asks is None,
        gpu_asks == Some(BackendRequest::Gpu { sigma, radius, blur_alpha }),
        metal_asks matches Some(
            BackendRequest::Metal { sigma: s, kernel_size: k, bytes, .. },
        ) && s == sigma && k == Some(kernel_size) && bytes@ == image_bytes(pixels_of(image@)),
        cpu_asks is None,
        cpu@ == (Settings { metal_kernel_size: Some(kernel_size), ..made@ }),
{
}

/// A unified processor tells what it was made with, and the settings of the processor are kept
/// apart from each other.
pub proof fn law_unified_tells_settings(
    sigma: F32,
    radius: Option<i32>,
    blur_alpha: bool,
    threads: usize,
    lanes: bool,
    made: UnifiedGaussianBlur,
    threaded: UnifiedGaussianBlur,
    blur: UnifiedGaussianBlur,
    told_sigma: F32,
    told_alpha: bool,
    told_backend: &BlurBackend,
)
    requires
        call_ensures(UnifiedGaussianBlur::new, (sigma, radius, blur_alpha), made),
        call_ensures(UnifiedGaussianBlur::with_threads, (made, threads), threaded),
        call_ensures(UnifiedGaussianBlur::with_simd, (threaded, lanes), blur),
        call_ensures(UnifiedGaussianBlur::sigma, (&blur,), told_sigma),
        call_ensures(UnifiedGaussianBlur::blur_alpha, (&blur,), told_alpha),
        call_ensures(UnifiedGaussianBlur::backend, (&blur,), told_backend),
    ensures
        told_sigma == sigma,
        told_alpha == blur_alpha,
        *told_backend == BlurBackend::Cpu,
        blur@.radius == radius,
        blur@.num_threads == Some(threads),
        blur@.use_simd == lanes,
        !made@.use_simd,
        made@.num_threads is None,
        made@.metal_kernel_size is None,
{
}

} // verus!
