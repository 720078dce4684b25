//! The blur of the Metal performance shaders.

use crate::float::repr::F32;
use crate::text::{append_decimal, decimal};
use vstd::prelude::*;
use vstd::string::StringExecFns;

verus! {

/// Why an image is not handed to the device.
#[derive(Clone, Copy, Debug, PartialEq, Eq, Structural)]
pub enum MpsError {
    /// The bytes are not those of an image of this size
    SizeMismatch { expected: u32, got: usize },
}

impl MpsError {
    /// The text of the error.
    pub open spec fn text(self) -> Seq<char> {
        match self {
            MpsError::SizeMismatch { expected, got } => "Image data size mismatch: expected "@
                + decimal(expected as nat) + " bytes, got "@ + decimal(got as nat) + " bytes"@,
        }
    }

    /// The text of the error.
    pub fn message(&self) -> (r: String)
        ensures
            r@ == self.text(),
    {
        let mut r = String::new();
        match self {
            MpsError::SizeMismatch { expected, got } => {
                r.append("Image data size mismatch: expected ");
                append_decimal(&mut r, *expected as u64);
                r.append(" bytes, got ");
                append_decimal(&mut r, *got as u64);
                r.append(" bytes");
            },
        }
        assert(r@ =~= self.text());
        r
    }
}

/// A blur for the device.
#[derive(Clone, Copy, Debug, PartialEq, Eq, Structural)]
pub struct MpsJob {
    pub sigma: F32,
    pub width: u32,
    pub height: u32,
    /// The number of bytes of a row, in the input and in the output
    pub bytes_per_row: u32,
    /// The number of bytes of the output
    pub output_size: u32,
    /// Whether the image may be too large for the memory of the device
    pub is_large: bool,
}

/// The side from which on an image counts as large.
pub const LARGE_SIDE: u32 = 4096;

/// The blur of the Metal performance shaders.
pub struct MetalMPSBlur {
    sigma: F32,
}

/// What is handed to the device for bytes of an image.
pub open spec fn mps_job(
    len: nat,
    width: u32,
    height: u32,
    sigma: F32,
) -> Result<MpsJob, MpsError> {
    if len != 4 * (width * height) {
        Err(MpsError::SizeMismatch { expected: (4 * (width * height)) as u32, got: len as usize })
    } else {
        Ok(
            MpsJob {
                sigma,
                width,
                height,
                bytes_per_row: (4 * width) as u32,
                output_size: (4 * (width * height)) as u32,
                is_large: width > LARGE_SIDE || height > LARGE_SIDE,
            },
        )
    }
}

impl MetalMPSBlur {
    /// The width of the Gaussian function.
    pub closed spec fn spec_sigma(self) -> F32 {
        self.sigma
    }

    /// Create a blur. The size of the kernel follows from sigma.
    pub fn new(sigma: F32, _kernel_size: Option<u32>) -> (b: MetalMPSBlur)
        ensures
            b.spec_sigma() == sigma,
    {
        MetalMPSBlur { sigma }
    }

    /// What is handed to the device to blur the bytes of an image, with the given sigma or
    /// else that of the blur. The bytes that come back are the result.
    pub fn blur_to_bytes(
        &self,
        image_data: &[u8],
        width: u32,
        height: u32,
        sigma: Option<F32>,
    ) -> (r: Result<MpsJob, MpsError>)
        requires
            4 * (width * height) <= u32::MAX,
            image_data@.len() == 4 * (width * height) ==> 4 * width <= u32::MAX,
        ensures
            r == mps_job(
                image_data@.len(),
                width,
                height,
                match sigma {
                    Some(s) => s,
                    None => self.spec_sigma(),
                },
            ),
    {
        let sigma = match sigma {
            Some(s) => s,
            None => self.sigma,
        };
        assert(width * height * 4 == 4 * (width * height)) by (nonlinear_arith);
        let size: u32 = width * height * 4;
        if image_data.len() != size as usize {
            Err(MpsError::SizeMismatch { expected: size, got: image_data.len() })
        } else {
            Ok(
                MpsJob {
                    sigma,
                    width,
                    height,
                    bytes_per_row: width * 4,
                    output_size: size,
                    is_large: width > LARGE_SIDE || height > LARGE_SIDE,
                },
            )
        }
    }
}

/// What is handed to the device to blur the bytes of an image.
pub fn blur_with_metal(image_data: &[u8], width: u32, height: u32, sigma: F32) -> (r: Result<
    MpsJob,
    MpsError,
>)
    requires
        4 * (width * height) <= u32::MAX,
        image_data@.len() == 4 * (width * height) ==> 4 * width <= u32::MAX,
    ensures
        r == mps_job(image_data@.len(), width, height, sigma),
{
    let blur = MetalMPSBlur::new(sigma, None);
    blur.blur_to_bytes(image_data, width, height, Some(sigma))
}

/// How far two bytes are apart.
pub open spec fn byte_distance(a: u8, b: u8) -> int {
    if a < b {
        b - a
    } else {
        a - b
    }
}

/// How far the colours of a pixel before and after a blur are apart.
pub open spec fn pixel_distance(input: Seq<u8>, output: Seq<u8>, p: int) -> int {
    byte_distance(input[4 * p], output[4 * p]) + byte_distance(input[4 * p + 1], output[4 * p + 1])
        + byte_distance(input[4 * p + 2], output[4 * p + 2])
}

/// Whether one of the first ten pixels has changed by more than ten.
pub open spec fn shows_blur(input: Seq<u8>, output: Seq<u8>) -> bool {
    exists|p: int|
        0 <= p < 10 && 4 * p + 3 < output.len() && 4 * p + 3 < input.len() && #[trigger]
            pixel_distance(input, output, p) > 10
}

/// How far two bytes are apart.
fn distance(a: u8, b: u8) -> (r: u32)
    ensures
        r == byte_distance(a, b),
        r <= 255,
{
    if a < b {
        (b - a) as u32
    } else {
        (a - b) as u32
    }
}

/// Whether one of the first ten pixels has changed by more than ten.
pub fn blur_detected(input: &[u8], output: &[u8]) -> (r: bool)
    ensures
        r == shows_blur(input@, output@),
{
    for p in 0..10usize
        invariant
            forall|q: int|
                0 <= q < p && 4 * q + 3 < output@.len() && 4 * q + 3 < input@.len()
                    ==> #[trigger] pixel_distance(input@, output@, q) <= 10,
    {
        let at: usize = 4 * p;
        if at + 3 < output.len() && at + 3 < input.len() {
            let diff = distance(input[at], output[at]) + distance(input[at + 1], output[at + 1])
                + distance(input[at + 2], output[at + 2]);
            assert(diff == pixel_distance(input@, output@, p as int));
            if diff > 10 {
                return true;
            }
        }
    }
    false
}

} // verus!
