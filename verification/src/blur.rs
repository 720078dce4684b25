//! The blur on the processor.

use crate::float::repr::F32;
use crate::kernel::{
    choose_radius, effective_radius, generate_gaussian_kernel, is_gaussian, valid_radius,
    GaussianKernel,
};
use crate::parallel::configure_pool;
use crate::pixel::Pixel;
use crate::sampling::pixels_of;
use crate::separable::{blur_in_parallel, blur_sequentially, blurred, can_blur};
use crate::simd::blur_in_lanes;
use vstd::prelude::*;

verus! {

/// Whether an image has no pixels: no rows, or nothing in the first one.
pub open spec fn is_blank(image: Seq<Seq<Pixel>>) -> bool {
    image.len() == 0 || image[0].len() == 0
}

/// The blurred image, or no rows where there is nothing to blur.
pub open spec fn blurred_or_empty(
    image: Seq<Seq<Pixel>>,
    weights: Seq<F32>,
    blur_alpha: bool,
    lanes: bool,
) -> Seq<Seq<Pixel>> {
    if is_blank(image) {
        Seq::empty()
    } else {
        blurred(image, weights, blur_alpha, lanes)
    }
}

/// Gaussian Blur processor (CPU)
pub struct GaussianBlur {
    kernel: GaussianKernel,
    blur_alpha: bool,
    num_threads: Option<usize>,
    use_simd: bool,
}

impl GaussianBlur {
    /// How far the kernel reaches to either side.
    pub closed spec fn spec_radius(self) -> int {
        self.kernel.spec_radius()
    }

    /// The width of the Gaussian function.
    pub closed spec fn spec_sigma(self) -> F32 {
        self.kernel.spec_sigma()
    }

    /// The weights of the kernel.
    pub closed spec fn weights(self) -> Seq<F32> {
        self.kernel.weights()
    }

    /// Whether alpha is blurred too.
    pub closed spec fn blurs_alpha(self) -> bool {
        self.blur_alpha
    }

    /// The number of threads that is asked for.
    pub closed spec fn threads(self) -> Option<usize> {
        self.num_threads
    }

    /// Whether the channels of a pixel are computed in lanes.
    pub closed spec fn uses_lanes(self) -> bool {
        self.use_simd
    }

    /// What the blur makes of an image.
    pub open spec fn output(self, image: Seq<Seq<Pixel>>) -> Seq<Seq<Pixel>> {
        blurred_or_empty(image, self.weights(), self.blurs_alpha(), self.uses_lanes())
    }

    /// Whether an image can be blurred.
    pub open spec fn accepts(self, image: Seq<Vec<Pixel>>) -> bool {
        is_blank(pixels_of(image)) || can_blur(image, self.spec_radius())
    }

    /// Create a new Gaussian Blur processor
    pub fn new<E: Fn(F32) -> F32>(
        sigma: F32,
        radius: Option<i32>,
        blur_alpha: bool,
        exp: &E,
    ) -> (b: GaussianBlur)
        requires
            valid_radius(effective_radius(sigma, radius)),
            forall|x: F32| call_requires(*exp, (x,)),
        ensures
            b.spec_radius() == effective_radius(sigma, radius),
            b.spec_sigma() == sigma,
            is_gaussian(*exp, b.spec_radius(), sigma, b.weights()),
            b.blurs_alpha() == blur_alpha,
            b.threads() == None::<usize>,
            b.uses_lanes() == false,
    {
        GaussianBlur {
            kernel: GaussianKernel::new(sigma, radius, exp),
            blur_alpha,
            num_threads: None,
            use_simd: false,
        }
    }

    /// Set number of threads to use (None = use all available)
    pub fn with_threads(self, num_threads: usize) -> (b: GaussianBlur)
        ensures
            b.threads() == Some(num_threads),
            b.spec_radius() == self.spec_radius(),
            b.spec_sigma() == self.spec_sigma(),
            b.weights() == self.weights(),
            b.blurs_alpha() == self.blurs_alpha(),
            b.uses_lanes() == self.uses_lanes(),
            forall|image: Seq<Seq<Pixel>>| #[trigger] b.output(image) == self.output(image),
    {
        GaussianBlur {
            kernel: self.kernel,
            blur_alpha: self.blur_alpha,
            num_threads: Some(num_threads),
            use_simd: self.use_simd,
        }
    }

    /// Enable SIMD optimizations
    pub fn with_simd(self, enable: bool) -> (b: GaussianBlur)
        ensures
            b.uses_lanes() == enable,
            b.spec_radius() == self.spec_radius(),
            b.spec_sigma() == self.spec_sigma(),
            b.weights() == self.weights(),
            b.blurs_alpha() == self.blurs_alpha(),
            b.threads() == self.threads(),
    {
        GaussianBlur {
            kernel: self.kernel,
            blur_alpha: self.blur_alpha,
            num_threads: self.num_threads,
            use_simd: enable,
        }
    }

    /// Apply blur to an image
    pub fn blur(&self, image: &[Vec<Pixel>]) -> (r: Vec<Vec<Pixel>>)
        requires
            self.accepts(image@),
        ensures
            pixels_of(r@) == self.output(pixels_of(image@)),
    {
        if image.len() == 0 || image[0].len() == 0 {
            let r: Vec<Vec<Pixel>> = Vec::new();
            assert(pixels_of(r@) =~= Seq::<Seq<Pixel>>::empty());
            return r;
        }
        if let Some(threads) = self.num_threads {
            configure_pool(threads);
        }
        if self.use_simd {
            self.blur_simd(image)
        } else {
            self.blur_scalar(image)
        }
    }

    /// Scalar implementation (no SIMD)
    fn blur_scalar(&self, image: &[Vec<Pixel>]) -> (r: Vec<Vec<Pixel>>)
        requires
            can_blur(image@, self.spec_radius()),
        ensures
            pixels_of(r@) == blurred(
                pixels_of(image@),
                self.weights(),
                self.blurs_alpha(),
                false,
            ),
    {
        blur_in_parallel(image, self.kernel.kernel(), self.kernel.radius(), self.blur_alpha)
    }

    /// SIMD-optimized implementation
    fn blur_simd(&self, image: &[Vec<Pixel>]) -> (r: Vec<Vec<Pixel>>)
        requires
            can_blur(image@, self.spec_radius()),
        ensures
            pixels_of(r@) == blurred(
                pixels_of(image@),
                self.weights(),
                self.blurs_alpha(),
                true,
            ),
    {
        blur_in_lanes(image, self.kernel.kernel(), self.kernel.radius(), self.blur_alpha)
    }

    /// Blur in-place (overwrites the input image)
    pub fn blur_in_place(&self, image: &mut [Vec<Pixel>])
        requires
            self.accepts(old(image)@),
        ensures
            pixels_of(final(image)@) == if is_blank(pixels_of(old(image)@)) {
                pixels_of(old(image)@)
            } else {
                self.output(pixels_of(old(image)@))
            },
    {
        let blurred = self.blur(image);
        let ghost before = image@;
        let ghost want = pixels_of(blurred@);
        let ghost pixels = pixels_of(before);
        assert(want.len() == if is_blank(pixels) {
            0
        } else {
            before.len()
        });
        let mut y: usize = 0;
        for row in it: blurred
            invariant
                y == it.index(),
                it.seq() == blurred@,
                image@.len() == before.len(),
                want.len() <= before.len(),
                blurred@.len() == want.len(),
                forall|i: int| 0 <= i < y ==> image@[i] == blurred@[i],
                forall|i: int| y <= i < before.len() ==> image@[i] == before[i],
        {
            image[y] = row;
            y += 1;
        }
        assert(pixels_of(image@) =~= if is_blank(pixels) {
            pixels
        } else {
            want
        });
    }

    /// Get the kernel radius
    pub fn radius(&self) -> (r: i32)
        ensures
            r == self.spec_radius(),
    {
        self.kernel.radius()
    }

    /// Get the sigma value
    pub fn sigma(&self) -> (r: F32)
        ensures
            r == self.spec_sigma(),
    {
        self.kernel.sigma()
    }
}

/// Simple Gaussian blur (single-threaded, for comparison)
pub fn simple_gaussian_blur<E: Fn(F32) -> F32>(
    image: &[Vec<Pixel>],
    sigma: F32,
    radius: Option<i32>,
    blur_alpha: bool,
    exp: &E,
) -> (r: Vec<Vec<Pixel>>)
    requires
        valid_radius(effective_radius(sigma, radius)),
        forall|x: F32| call_requires(*exp, (x,)),
        can_blur(image@, effective_radius(sigma, radius)),
    ensures
        exists|weights: Seq<F32>| #[trigger]
            is_gaussian(*exp, effective_radius(sigma, radius), sigma, weights) && pixels_of(r@)
                == blurred(pixels_of(image@), weights, blur_alpha, false),
{
    let radius = choose_radius(sigma, radius);
    let kernel = generate_gaussian_kernel(radius, sigma, exp);
    blur_sequentially(image, kernel.as_slice(), radius, blur_alpha)
}

} // verus!
