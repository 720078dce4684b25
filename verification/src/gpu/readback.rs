//! What comes back from a device: rows padded to a multiple of 256 bytes.

use vstd::prelude::*;

verus! {

/// The number of bytes that a row of pixels takes in a buffer: four for each pixel, up to
/// the next multiple of 256.
pub open spec fn padded_row(width: int) -> int {
    (4 * width + 255) / 256 * 256
}

/// The number of bytes that a row of pixels takes in a buffer.
pub fn padded_row_size(width: u32) -> (r: u32)
    requires
        4 * width + 255 <= u32::MAX,
    ensures
        r == padded_row(width as int),
        4 * width <= r < 4 * width + 256,
        r % 256 == 0,
{
    ((4 * width + 255) / 256) * 256
}

/// The size of the buffer for an image.
pub fn buffer_size(width: u32, height: u32) -> (r: u64)
    requires
        4 * width + 255 <= u32::MAX,
    ensures
        r == padded_row(width as int) * height,
{
    let row = padded_row_size(width);
    assert(row * height <= u32::MAX * u32::MAX) by (nonlinear_arith)
        requires
            row <= u32::MAX,
            height <= u32::MAX,
    ;
    row as u64 * height as u64
}

/// The byte at a place of an image, from a buffer of padded rows. What the buffer does not
/// cover is zero.
pub open spec fn unpadded_byte(data: Seq<u8>, width: int, i: int) -> u8 {
    let at = i / (4 * width) * padded_row(width) + i % (4 * width);
    if at < data.len() {
        data[at]
    } else {
        0
    }
}

/// The bytes of an image, from a buffer of padded rows.
pub open spec fn unpadded(data: Seq<u8>, width: int, height: int) -> Seq<u8> {
    Seq::new((4 * width * height) as nat, |i: int| unpadded_byte(data, width, i))
}

/// Bytes that were put into padded rows come out again.
pub proof fn law_padding_is_dropped(bytes: Seq<u8>, data: Seq<u8>, width: int, height: int)
    requires
        width > 0,
        height >= 0,
        bytes.len() == 4 * width * height,
        data.len() >= padded_row(width) * height,
        forall|y: int, i: int|
            0 <= y < height && 0 <= i < 4 * width ==> #[trigger] data[y * padded_row(width) + i]
                == bytes[y * (4 * width) + i],
    ensures
        unpadded(data, width, height) == bytes,
{
    let used = 4 * width;
    let row = padded_row(width);
    assert forall|at: int| 0 <= at < bytes.len() implies unpadded_byte(data, width, at)
        == bytes[at] by {
        let y = at / used;
        let i = at % used;
        vstd::arithmetic::div_mod::lemma_fundamental_div_mod(at, used);
        assert(at == y * used + i) by (nonlinear_arith)
            requires
                at == used * y + i,
        ;
        assert(0 <= y < height) by (nonlinear_arith)
            requires
                0 <= at < used * height,
                y == at / used,
                used > 0,
        ;
        assert(y * row + row <= row * height) by (nonlinear_arith)
            requires
                y < height,
                row >= 0,
        ;
        assert(data[y * row + i] == bytes[y * used + i]);
    }
    assert(unpadded(data, width, height) =~= bytes);
}

/// The bytes of an image, from a buffer of padded rows.
pub fn extract_rows(data: &[u8], width: usize, height: usize) -> (bytes: Vec<u8>)
    requires
        width > 0,
        4 * width + 255 <= u32::MAX,
        padded_row(width as int) * height <= usize::MAX,
    ensures
        bytes@ == unpadded(data@, width as int, height as int),
{
    let row_size = padded_row_size(width as u32) as usize;
    let used: usize = 4 * width;
    let mut bytes: Vec<u8> = Vec::new();
    assert(0 * used == 0);
    for row in 0..height
        invariant
            width > 0,
            4 * width + 255 <= u32::MAX,
            used == 4 * width,
            row_size == padded_row(width as int),
            used <= row_size,
            row_size * height <= usize::MAX,
            bytes@.len() == row * used,
            forall|i: int|
                0 <= i < bytes@.len() ==> bytes@[i] == unpadded_byte(data@, width as int, i),
    {
        assert(row * row_size + row_size <= row_size * height) by (nonlinear_arith)
            requires
                row < height,
        ;
        let start: usize = row * row_size;
        assert((row + 1) * used == row * used + used) by (nonlinear_arith);
        for column in 0..used
            invariant
                width > 0,
                used == 4 * width,
                row_size == padded_row(width as int),
                used <= row_size,
                start == row * row_size,
                start + row_size <= usize::MAX,
                bytes@.len() == row * used + column,
                forall|i: int|
                    0 <= i < bytes@.len() ==> bytes@[i] == unpadded_byte(data@, width as int, i),
        {
            let at: usize = start + column;
            let ghost i = row * used + column;
            proof {
                vstd::arithmetic::div_mod::lemma_fundamental_div_mod_converse(
                    i as int,
                    used as int,
                    row as int,
                    column as int,
                );
            }
            let byte = if at < data.len() {
                data[at]
            } else {
                0
            };
            bytes.push(byte);
        }
    }
    proof {
        assert(height * used == 4 * width * height) by (nonlinear_arith)
            requires
                used == 4 * width,
        ;
        assert(bytes@ =~= unpadded(data@, width as int, height as int));
    }
    bytes
}

/// Whether one of the first hundred bytes is not zero.
pub open spec fn shows_output(data: Seq<u8>) -> bool {
    exists|i: int| 0 <= i < data.len() && i < 100 && data[i] != 0
}

/// Whether one of the first hundred bytes is not zero.
pub fn has_output(data: &[u8]) -> (r: bool)
    ensures
        r == shows_output(data@),
{
    let limit = if data.len() < 100 {
        data.len()
    } else {
        100
    };
    for i in 0..limit
        invariant
            limit <= data@.len(),
            limit <= 100,
            forall|j: int| 0 <= j < i ==> data@[j] == 0,
    {
        if data[i] != 0 {
            return true;
        }
    }
    false
}

/// Whether the pixel that starts at byte `4 * p` has a channel that is not zero.
pub open spec fn pixel_shows(bytes: Seq<u8>, p: int) -> bool {
    bytes[4 * p] != 0 || bytes[4 * p + 1] != 0 || bytes[4 * p + 2] != 0 || bytes[4 * p + 3] != 0
}

/// How many of the first `n` pixels have a channel that is not zero.
pub open spec fn showing_pixels(bytes: Seq<u8>, n: nat) -> nat
    decreases n,
{
    if n == 0 {
        0
    } else {
        showing_pixels(bytes, (n - 1) as nat) + if pixel_shows(bytes, n - 1) {
            1nat
        } else {
            0nat
        }
    }
}

/// How many pixels an analysis of an output looks at: at most a thousand, and no more than
/// the image has and the bytes hold.
pub open spec fn analyzed_pixels(len: nat, pixels: nat) -> nat {
    let limit = if pixels < 1000 {
        pixels
    } else {
        1000
    };
    if limit <= len / 4 {
        limit
    } else {
        len / 4
    }
}

/// The number of pixels at the start of an output that were looked at, and of those among
/// them that are not all zero.
pub fn analyze_output(bytes: &[u8], pixels: usize) -> (r: (usize, usize))
    ensures
        r.0 == analyzed_pixels(bytes@.len(), pixels as nat),
        r.1 == showing_pixels(bytes@, r.0 as nat),
        r.1 <= r.0,
{
    let limit = if pixels < 1000 {
        pixels
    } else {
        1000
    };
    let held = bytes.len() / 4;
    let checked = if limit <= held {
        limit
    } else {
        held
    };
    let mut showing: usize = 0;
    for p in 0..checked
        invariant
            4 * checked <= bytes@.len(),
            checked <= 1000,
            showing == showing_pixels(bytes@, p as nat),
            showing <= p,
    {
        let at: usize = 4 * p;
        if bytes[at] != 0 || bytes[at + 1] != 0 || bytes[at + 2] != 0 || bytes[at + 3] != 0 {
            showing = showing + 1;
        }
    }
    (checked, showing)
}

} // verus!
