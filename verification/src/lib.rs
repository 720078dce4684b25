//! Gaussian blur for RGBA images.
//!
//! An image is a slice of rows of [`Pixel`]s, and its width is the length of its first row.
//! The blurs on the processor compute with binary32 numbers, which are held as bit patterns
//! in [`F32`] and rounded as the standard for such numbers says, so every contract says
//! exactly which bytes come out. Only the exponential function is left to the caller, who
//! hands it in as a closure.
//!
//! Blurs on a graphics processor are planned, checked and unpacked here; the device itself
//! is driven from outside.

pub mod accuracy;
pub mod blur;
pub mod brightness;
pub mod bytes;
pub mod float;
pub mod gpu;
pub mod identity;
pub mod image_io;
pub mod kernel;
pub mod kernel_laws;
pub mod laws;
pub mod monotone;
mod parallel;
pub mod pixel;
pub mod pixel_laws;
pub mod processor_laws;
pub mod sampling;
pub mod separable;
pub mod sigma_one;
pub mod simd;
pub mod sums;
pub mod text;
pub mod unified;
pub mod window;
pub mod window_formulas;
pub mod window_laws;
pub mod window_mean;

pub use blur::{simple_gaussian_blur, GaussianBlur};
pub use float::lanes::F32x4;
pub use float::repr::F32;
pub use gpu::mps::{blur_with_metal, MetalMPSBlur};
pub use gpu::processor::GpuGaussianBlur;
pub use gpu::variable::MetalGpuGaussianBlur;
pub use image_io::{image_to_pixels, pixels_to_image, RgbaImage};
pub use kernel::GaussianKernel;
pub use pixel::Pixel;
pub use unified::{BlurBackend, UnifiedGaussianBlur};
pub use window::{gaussian_blur_3x3, gaussian_blur_5x5};
