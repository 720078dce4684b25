//! What goes to a device: rows padded to a multiple of 256 bytes.

use crate::bytes::{image_bytes, is_rectangular, lemma_image_bytes};
use crate::gpu::readback::{law_padding_is_dropped, padded_row, padded_row_size, unpadded};
use crate::pixel::{channel, Pixel};
use crate::sampling::pixels_of;
use vstd::prelude::*;

verus! {

/// The byte at one place of a padded row: a channel of a pixel, or zero after the last pixel.
pub open spec fn padded_byte(row: Seq<Pixel>, width: int, at: int) -> u8 {
    if at < 4 * width && at / 4 < row.len() {
        channel(row[at / 4], at % 4)
    } else {
        0
    }
}

/// The bytes of an image as wide as its first row, in padded rows.
pub open spec fn padded(image: Seq<Seq<Pixel>>) -> Seq<u8> {
    let width = image[0].len() as int;
    let size = padded_row(width);
    Seq::new(
        (size * image.len()) as nat,
        |i: int| padded_byte(image[i / size], width, i % size),
    )
}

/// An image that is put into padded rows comes out of them again.
pub proof fn law_upload_round_trip(image: Seq<Seq<Pixel>>)
    requires
        is_rectangular(image),
        image.len() > 0,
        image[0].len() > 0,
    ensures
        unpadded(padded(image), image[0].len() as int, image.len() as int) == image_bytes(image),
{
    let width = image[0].len() as int;
    let height = image.len() as int;
    let size = padded_row(width);
    let used = 4 * width;
    let data = padded(image);
    lemma_image_bytes(image, image[0].len());
    assert(4 * (width * height) == 4 * width * height) by (nonlinear_arith);
    assert forall|y: int, i: int| 0 <= y < height && 0 <= i < used implies #[trigger] data[y * size
        + i] == image_bytes(image)[y * used + i] by {
        let x = i / 4;
        let c = i % 4;
        let at = y * size + i;
        assert(at / size == y && at % size == i) by {
            vstd::arithmetic::div_mod::lemma_fundamental_div_mod_converse(at, size, y, i);
        }
        assert(0 <= at < size * height) by (nonlinear_arith)
            requires
                0 <= y < height,
                0 <= i < size,
                at == y * size + i,
        ;
        assert(y * used + i == 4 * (y * width + x) + c) by (nonlinear_arith)
            requires
                used == 4 * width,
                i == 4 * x + c,
        ;
        assert(image_bytes(image)[4 * (y * width + x) + c] == channel(image[y][x], c));
    }
    law_padding_is_dropped(image_bytes(image), data, width, height);
}

/// The bytes of an image as wide as its first row, in padded rows.
pub fn pad_image(image: &[Vec<Pixel>]) -> (bytes: Vec<u8>)
    requires
        image@.len() > 0,
        4 * image@[0]@.len() + 255 <= u32::MAX,
        padded_row(image@[0]@.len() as int) * image@.len() <= usize::MAX,
    ensures
        bytes@ == padded(pixels_of(image@)),
{
    let width = image[0].len();
    let size = padded_row_size(width as u32) as usize;
    let ghost pixels = pixels_of(image@);
    let mut bytes: Vec<u8> = Vec::new();
    assert(0 * size == 0);
    for y in 0..image.len()
        invariant
            image@.len() > 0,
            width == image@[0]@.len(),
            size == padded_row(width as int),
            size <= u32::MAX,
            pixels == pixels_of(image@),
            bytes@.len() == y * size,
            forall|i: int|
                0 <= i < bytes@.len() ==> (#[trigger] bytes@[i]) == padded_byte(
                    pixels[i / size as int],
                    width as int,
                    i % size as int,
                ),
    {
        let row = &image[y];
        for at in 0..size
            invariant
                y < image@.len(),
                width == image@[0]@.len(),
                4 * width <= size,
                size <= u32::MAX,
                pixels == pixels_of(image@),
                row@ == pixels[y as int],
                bytes@.len() == y * size + at,
                forall|i: int|
                    0 <= i < bytes@.len() ==> (#[trigger] bytes@[i]) == padded_byte(
                        pixels[i / size as int],
                        width as int,
                        i % size as int,
                    ),
        {
            let byte: u8 = if at < 4 * width && at / 4 < row.len() {
                let pixel = row[at / 4];
                match at % 4 {
                    0 => pixel.r,
                    1 => pixel.g,
                    2 => pixel.b,
                    _ => pixel.a,
                }
            } else {
                0
            };
            let ghost i = y * size + at;
            proof {
                vstd::arithmetic::div_mod::lemma_fundamental_div_mod_converse(
                    i,
                    size as int,
                    y as int,
                    at as int,
                );
                assert(byte == padded_byte(pixels[y as int], width as int, at as int));
            }
            bytes.push(byte);
        }
        assert((y + 1) * size == y * size + size) by (nonlinear_arith);
    }
    proof {
        let n = image@.len();
        assert(n * size == size * n) by (nonlinear_arith);
    }
    assert(bytes@ =~= padded(pixels));
    bytes
}

} // verus!
