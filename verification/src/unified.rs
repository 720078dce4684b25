//! One blur for every backend.
//!
//! The library itself blurs on the processor. A graphics backend is asked from outside:
//! [`UnifiedGaussianBlur::request`] says what to ask, and the reply is handed to
//! [`UnifiedGaussianBlur::blur_to_bytes`].

use crate::blur::{blurred_or_empty, is_blank, GaussianBlur};
use crate::bytes::{
    bytes_of_image, flattened, image_from_bytes, is_rectangular, law_bytes_round_trip, low_32,
    to_u32, unflatten,
};
use crate::float::repr::F32;
use crate::kernel::{effective_radius, is_gaussian, valid_radius};
use crate::pixel::Pixel;
use crate::sampling::pixels_of;
use crate::separable::can_blur;
use vstd::prelude::*;

verus! {

/// Backend selection for unified blur
#[derive(Clone, Copy, Debug, PartialEq, Eq, Structural)]
pub enum BlurBackend {
    /// CPU backend (supports SIMD and multithreading)
    Cpu,
    /// GPU backend
    Gpu,
    /// Metal backend (macOS only)
    Metal,
}

/// What a graphics backend is asked for.
pub enum BackendRequest {
    /// To make a processor with these settings and blur the image with it.
    Gpu { sigma: F32, radius: Option<i32>, blur_alpha: bool },
    /// To blur these bytes.
    Metal { sigma: F32, kernel_size: Option<u32>, bytes: Vec<u8>, width: u32, height: u32 },
}

/// What came back from a graphics backend.
pub enum BackendReply {
    /// Nothing: the backend failed, is not there, or was not asked.
    Nothing,
    /// The bytes and the size of the blurred image.
    Gpu { bytes: Vec<u8>, width: usize, height: usize },
    /// The bytes of the blurred image.
    Metal { bytes: Vec<u8> },
}

/// Unified Gaussian Blur processor that can use CPU, GPU, or Metal
pub struct UnifiedGaussianBlur {
    sigma: F32,
    radius: Option<i32>,
    blur_alpha: bool,
    backend: BlurBackend,
    num_threads: Option<usize>,
    use_simd: bool,
    metal_kernel_size: Option<u32>,
}

/// The settings of a unified blur.
pub struct Settings {
    pub sigma: F32,
    pub radius: Option<i32>,
    pub blur_alpha: bool,
    pub backend: BlurBackend,
    pub num_threads: Option<usize>,
    pub use_simd: bool,
    pub metal_kernel_size: Option<u32>,
}

impl View for UnifiedGaussianBlur {
    type V = Settings;

    closed spec fn view(&self) -> Settings {
        Settings {
            sigma: self.sigma,
            radius: self.radius,
            blur_alpha: self.blur_alpha,
            backend: self.backend,
            num_threads: self.num_threads,
            use_simd: self.use_simd,
            metal_kernel_size: self.metal_kernel_size,
        }
    }
}

impl Settings {
    /// The radius of the kernel.
    pub open spec fn kernel_radius(self) -> int {
        effective_radius(self.sigma, self.radius)
    }

    /// What a graphics backend made of an image, where one was chosen and gave a reply.
    pub open spec fn accelerated(
        self,
        image: Seq<Seq<Pixel>>,
        reply: BackendReply,
    ) -> Option<(Seq<u8>, u32, u32)> {
        match (self.backend, reply) {
            (BlurBackend::Gpu, BackendReply::Gpu { bytes, width, height }) => Some(
                (bytes@, low_32(width as nat), low_32(height as nat)),
            ),
            (BlurBackend::Metal, BackendReply::Metal { bytes }) => Some(
                (bytes@, flattened(image).1, flattened(image).2),
            ),
            _ => None,
        }
    }

    /// Whether the processor can blur an image.
    pub open spec fn processor_accepts(self, image: Seq<Vec<Pixel>>) -> bool {
        &&& valid_radius(self.kernel_radius())
        &&& is_blank(pixels_of(image)) || can_blur(image, self.kernel_radius())
    }

    /// Whether an image can be blurred after this reply. Without one the processor blurs
    /// it.
    pub open spec fn accepts(self, image: Seq<Vec<Pixel>>, reply: BackendReply) -> bool {
        image.len() > 0 && self.accelerated(pixels_of(image), reply) is None
            ==> self.processor_accepts(image)
    }

    /// Whether `output` is what the processor makes of an image, where `exp` gives the
    /// exponentials.
    pub open spec fn is_processor_output<E: Fn(F32) -> F32>(
        self,
        exp: E,
        image: Seq<Seq<Pixel>>,
        output: Seq<Seq<Pixel>>,
    ) -> bool {
        exists|weights: Seq<F32>| #[trigger]
            is_gaussian(exp, self.kernel_radius(), self.sigma, weights) && output
                == blurred_or_empty(image, weights, self.blur_alpha, self.use_simd)
    }

    /// Whether `out` are the bytes, the width and the height of what the processor makes of an
    /// image.
    pub open spec fn are_processor_bytes<E: Fn(F32) -> F32>(
        self,
        exp: E,
        image: Seq<Seq<Pixel>>,
        out: (Seq<u8>, u32, u32),
    ) -> bool {
        exists|output: Seq<Seq<Pixel>>| #[trigger]
            self.is_processor_output(exp, image, output) && out == flattened(output)
    }
}

impl UnifiedGaussianBlur {
    /// Create a new unified Gaussian Blur processor
    pub fn new(sigma: F32, radius: Option<i32>, blur_alpha: bool) -> (b: UnifiedGaussianBlur)
        ensures
            b@ == (Settings {
                sigma,
                radius,
                blur_alpha,
                backend: BlurBackend::Cpu,
                num_threads: None,
                use_simd: false,
                metal_kernel_size: None,
            }),
    {
        UnifiedGaussianBlur {
            sigma,
            radius,
            blur_alpha,
            backend: BlurBackend::Cpu,
            num_threads: None,
            use_simd: false,
            metal_kernel_size: None,
        }
    }

    /// Use GPU backend
    pub fn with_gpu(self) -> (b: UnifiedGaussianBlur)
        ensures
            b@ == (Settings { backend: BlurBackend::Gpu, ..self@ }),
    {
        UnifiedGaussianBlur { backend: BlurBackend::Gpu, ..self }
    }

    /// Use CPU backend
    pub fn with_cpu(self) -> (b: UnifiedGaussianBlur)
        ensures
            b@ == (Settings { backend: BlurBackend::Cpu, ..self@ }),
    {
        UnifiedGaussianBlur { backend: BlurBackend::Cpu, ..self }
    }

    /// Use Metal backend (macOS only)
    pub fn with_metal(self) -> (b: UnifiedGaussianBlur)
        ensures
            b@ == (Settings { backend: BlurBackend::Metal, ..self@ }),
    {
        UnifiedGaussianBlur { backend: BlurBackend::Metal, ..self }
    }

    /// Set Metal kernel size (macOS only)
    pub fn with_metal_kernel_size(self, kernel_size: u32) -> (b: UnifiedGaussianBlur)
        ensures
            b@ == (Settings { metal_kernel_size: Some(kernel_size), ..self@ }),
    {
        UnifiedGaussianBlur { metal_kernel_size: Some(kernel_size), ..self }
    }

    /// Set number of threads (CPU only)
    pub fn with_threads(self, num_threads: usize) -> (b: UnifiedGaussianBlur)
        ensures
            b@ == (Settings { num_threads: Some(num_threads), ..self@ }),
    {
        UnifiedGaussianBlur { num_threads: Some(num_threads), ..self }
    }

    /// Enable SIMD optimizations (CPU only)
    pub fn with_simd(self, enable: bool) -> (b: UnifiedGaussianBlur)
        ensures
            b@ == (Settings { use_simd: enable, ..self@ }),
    {
        UnifiedGaussianBlur { use_simd: enable, ..self }
    }

    /// Helper function to convert pixel image to bytes
    pub fn image_to_bytes(image: &[Vec<Pixel>]) -> (r: (Vec<u8>, u32, u32))
        ensures
            (r.0@, r.1, r.2) == flattened(pixels_of(image@)),
    {
        if image.len() == 0 {
            return (Vec::new(), 0, 0);
        }
        (bytes_of_image(image), to_u32(image[0].len()), to_u32(image.len()))
    }

    /// Helper function to convert bytes back to pixel image
    pub fn bytes_to_image(bytes: &[u8], width: u32, height: u32) -> (r: Vec<Vec<Pixel>>)
        ensures
            pixels_of(r@) == image_from_bytes(bytes@, width as int, height as int),
    {
        unflatten(bytes, width as usize, height as usize)
    }

    /// What to ask a graphics backend before an image is blurred: nothing where there is
    /// no image or the processor was chosen.
    pub fn request(&self, image: &[Vec<Pixel>]) -> (r: Option<BackendRequest>)
        ensures
            image@.len() == 0 || self@.backend == BlurBackend::Cpu ==> r is None,
            image@.len() > 0 && self@.backend == BlurBackend::Gpu ==> r == Some(
                BackendRequest::Gpu {
                    sigma: self@.sigma,
                    radius: self@.radius,
                    blur_alpha: self@.blur_alpha,
                },
            ),
            image@.len() > 0 && self@.backend == BlurBackend::Metal ==> {
                &&& r matches Some(
                    BackendRequest::Metal { sigma, kernel_size, bytes, width, height },
                )
                &&& sigma == self@.sigma
                &&& kernel_size == self@.metal_kernel_size
                &&& (bytes@, width, height) == flattened(pixels_of(image@))
            },
    {
        if image.len() == 0 {
            return None;
        }
        match self.backend {
            BlurBackend::Cpu => None,
            BlurBackend::Gpu => Some(
                BackendRequest::Gpu {
                    sigma: self.sigma,
                    radius: self.radius,
                    blur_alpha: self.blur_alpha,
                },
            ),
            BlurBackend::Metal => {
                let (bytes, width, height) = UnifiedGaussianBlur::image_to_bytes(image);
                Some(
                    BackendRequest::Metal {
                        sigma: self.sigma,
                        kernel_size: self.metal_kernel_size,
                        bytes,
                        width,
                        height,
                    },
                )
            },
        }
    }

    /// The image, blurred on the processor.
    fn blur_on_processor<E: Fn(F32) -> F32>(&self, image: &[Vec<Pixel>], exp: &E) -> (r: Vec<
        Vec<Pixel>,
    >)
        requires
            forall|x: F32| call_requires(*exp, (x,)),
            self@.processor_accepts(image@),
        ensures
            self@.is_processor_output(*exp, pixels_of(image@), pixels_of(r@)),
    {
        let cpu_blur = GaussianBlur::new(self.sigma, self.radius, self.blur_alpha, exp).with_simd(
            self.use_simd,
        );
        if let Some(threads) = self.num_threads {
            cpu_blur.with_threads(threads).blur(image)
        } else {
            cpu_blur.blur(image)
        }
    }

    /// Fallback to CPU implementation for bytes
    pub fn blur_to_bytes_fallback<E: Fn(F32) -> F32>(&self, image: &[Vec<Pixel>], exp: &E) -> (r: (
        Vec<u8>,
        u32,
        u32,
    ))
        requires
            forall|x: F32| call_requires(*exp, (x,)),
            self@.processor_accepts(image@),
        ensures
            self@.are_processor_bytes(*exp, pixels_of(image@), (r.0@, r.1, r.2)),
    {
        let pixels = self.blur_on_processor(image, exp);
        UnifiedGaussianBlur::image_to_bytes(pixels.as_slice())
    }

    /// Apply blur and return raw RGBA bytes with their width and height. `reply` is what
    /// the backend answered to [`UnifiedGaussianBlur::request`]; where it gave nothing, the
    /// processor blurs the image.
    pub fn blur_to_bytes<E: Fn(F32) -> F32>(
        &self,
        image: &[Vec<Pixel>],
        reply: BackendReply,
        exp: &E,
    ) -> (r: Result<(Vec<u8>, u32, u32), String>)
        requires
            forall|x: F32| call_requires(*exp, (x,)),
            self@.accepts(image@, reply),
        ensures
            r is Ok,
            image@.len() == 0 ==> (r->Ok_0.0@, r->Ok_0.1, r->Ok_0.2) == (
                Seq::<u8>::empty(),
                0u32,
                0u32,
            ),
            image@.len() > 0 ==> match self@.accelerated(pixels_of(image@), reply) {
                Some(output) => (r->Ok_0.0@, r->Ok_0.1, r->Ok_0.2) == output,
                None => self@.are_processor_bytes(
                    *exp,
                    pixels_of(image@),
                    (r->Ok_0.0@, r->Ok_0.1, r->Ok_0.2),
                ),
            },
            image@.len() > 0 && self@.backend == BlurBackend::Gpu ==> (reply matches
                BackendReply::Gpu { bytes, width, height } ==> {
                &&& r->Ok_0.0@ == bytes@
                &&& width <= u32::MAX ==> r->Ok_0.1 == width
                &&& height <= u32::MAX ==> r->Ok_0.2 == height
            }),
            image@.len() > 0 && self@.backend == BlurBackend::Metal ==> (reply matches
                BackendReply::Metal { bytes } ==> {
                &&& r->Ok_0.0@ == bytes@
                &&& image@[0]@.len() <= u32::MAX ==> r->Ok_0.1 == image@[0]@.len()
                &&& image@.len() <= u32::MAX ==> r->Ok_0.2 == image@.len()
            }),
    {
        if image.len() == 0 {
            return Ok((Vec::new(), 0, 0));
        }
        match (self.backend, reply) {
            (BlurBackend::Gpu, BackendReply::Gpu { bytes, width, height }) => Ok(
                (bytes, to_u32(width), to_u32(height)),
            ),
            (BlurBackend::Metal, BackendReply::Metal { bytes }) => Ok(
                (bytes, to_u32(image[0].len()), to_u32(image.len())),
            ),
            _ => Ok(self.blur_to_bytes_fallback(image, exp)),
        }
    }

    /// Apply blur using selected backend (returns pixels, for compatibility)
    pub fn blur<E: Fn(F32) -> F32>(
        &self,
        image: &[Vec<Pixel>],
        reply: BackendReply,
        exp: &E,
    ) -> (r: Vec<Vec<Pixel>>)
        requires
            forall|x: F32| call_requires(*exp, (x,)),
            self@.accepts(image@, reply),
        ensures
            image@.len() == 0 ==> r@.len() == 0,
            image@.len() > 0 ==> match self@.accelerated(pixels_of(image@), reply) {
                Some(output) => pixels_of(r@) == image_from_bytes(
                    output.0,
                    output.1 as int,
                    output.2 as int,
                ),
                None => self@.is_processor_output(*exp, pixels_of(image@), pixels_of(r@)),
            },
            image@.len() > 0 && self@.backend == BlurBackend::Gpu ==> (reply matches
                BackendReply::Gpu { bytes, width, height } ==> (width <= u32::MAX && height
                <= u32::MAX ==> pixels_of(r@) == image_from_bytes(
                bytes@,
                width as int,
                height as int,
            ))),
    {
        match self.blur_to_bytes(image, reply, exp) {
            Ok((bytes, width, height)) => {
                let r = if width == 0 || height == 0 {
                    Vec::new()
                } else {
                    UnifiedGaussianBlur::bytes_to_image(bytes.as_slice(), width, height)
                };
                proof {
                    let pixels = pixels_of(image@);
                    assert(pixels_of(r@) =~= image_from_bytes(
                        bytes@,
                        width as int,
                        height as int,
                    ));
                    if image@.len() > 0 && self@.accelerated(pixels, reply) is None {
                        let output = choose|output: Seq<Seq<Pixel>>| #[trigger]
                            self@.is_processor_output(*exp, pixels, output) && (
                                bytes@,
                                width,
                                height,
                            ) == flattened(output);
                        if !is_blank(pixels) {
                            assert(is_rectangular(output));
                            law_bytes_round_trip(output);
                        } else {
                            assert(output =~= Seq::<Seq<Pixel>>::empty());
                        }
                        assert(pixels_of(r@) == output);
                    }
                }
                r
            },
            Err(_) => Vec::new(),
        }
    }

    /// Get the sigma value
    pub fn sigma(&self) -> (r: F32)
        ensures
            r == self@.sigma,
    {
        self.sigma
    }

    /// Check if blur alpha is enabled
    pub fn blur_alpha(&self) -> (r: bool)
        ensures
            r == self@.blur_alpha,
    {
        self.blur_alpha
    }

    /// Get the backend
    pub fn backend(&self) -> (r: &BlurBackend)
        ensures
            *r == self@.backend,
    {
        &self.backend
    }
}

} // verus!
