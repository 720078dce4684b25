//! The parameters of the shaders, laid out as 32-bit words.

use crate::float::repr::F32;
use vstd::prelude::*;

verus! {

/// One of the four bytes of a word, the lowest first.
pub open spec fn word_byte(word: u32, i: int) -> u8 {
    if i == 0 {
        (word % 0x100) as u8
    } else if i == 1 {
        (word / 0x100 % 0x100) as u8
    } else if i == 2 {
        (word / 0x1_0000 % 0x100) as u8
    } else {
        (word / 0x100_0000) as u8
    }
}

/// The bytes of words, the lowest byte of each first.
pub open spec fn little_endian(words: Seq<u32>) -> Seq<u8> {
    Seq::new(4 * words.len(), |i: int| word_byte(words[i / 4], i % 4))
}

/// The bytes of words, the highest byte of each first.
pub open spec fn big_endian(words: Seq<u32>) -> Seq<u8> {
    Seq::new(4 * words.len(), |i: int| word_byte(words[i / 4], 3 - i % 4))
}

/// Whether `bytes` are how some machine holds `words` in memory.
pub open spec fn are_words_in_memory(bytes: Seq<u8>, words: Seq<u32>) -> bool {
    bytes == little_endian(words) || bytes == big_endian(words)
}

/// The bytes of words as they lie in memory.
///
/// The body is `bytemuck::cast_slice` from words to bytes, copied. It reads the memory of
/// the words byte by byte, so the order of the bytes within a word is that of the machine;
/// the contract says that it is one of the two orders there are. The cast cannot fail:
/// every word is four bytes, and bytes may lie anywhere.
#[verifier::external_body]
pub(crate) fn bytes_of_words(words: &Vec<u32>) -> (bytes: Vec<u8>)
    ensures
        are_words_in_memory(bytes@, words@),
{
    bytemuck::cast_slice::<u32, u8>(words.as_slice()).to_vec()
}

/// The words of a pass of the Gaussian blur: twelve words, the last six unused.
pub open spec fn gaussian_words(
    width: u32,
    height: u32,
    radius: u32,
    blur_alpha: bool,
    direction: u32,
    sigma: F32,
) -> Seq<u32> {
    seq![
        width,
        height,
        radius,
        if blur_alpha { 1u32 } else { 0u32 },
        direction,
        sigma.bits,
        0,
        0,
        0,
        0,
        0,
        0,
    ]
}

/// The words of a pass of the box blur: twelve words, the last seven unused.
pub open spec fn box_words(
    width: u32,
    height: u32,
    radius: u32,
    blur_alpha: bool,
    direction: u32,
) -> Seq<u32> {
    seq![
        width,
        height,
        radius,
        if blur_alpha { 1u32 } else { 0u32 },
        direction,
        0,
        0,
        0,
        0,
        0,
        0,
        0,
    ]
}

/// The words of a change of size: twelve words, the last eight unused.
pub open spec fn resize_words(
    src_width: u32,
    src_height: u32,
    dst_width: u32,
    dst_height: u32,
) -> Seq<u32> {
    seq![src_width, src_height, dst_width, dst_height, 0, 0, 0, 0, 0, 0, 0, 0]
}

/// The bytes of the parameters of a pass of the Gaussian blur.
pub fn gaussian_params(
    width: u32,
    height: u32,
    radius: u32,
    blur_alpha: bool,
    direction: u32,
    sigma: F32,
) -> (bytes: Vec<u8>)
    ensures
        are_words_in_memory(
            bytes@,
            gaussian_words(width, height, radius, blur_alpha, direction, sigma),
        ),
{
    let alpha: u32 = if blur_alpha {
        1
    } else {
        0
    };
    let words: Vec<u32> = vec![
        width,
        height,
        radius,
        alpha,
        direction,
        sigma.to_bits(),
        0,
        0,
        0,
        0,
        0,
        0,
    ];
    assert(words@ =~= gaussian_words(width, height, radius, blur_alpha, direction, sigma));
    bytes_of_words(&words)
}

/// The bytes of the parameters of a pass of the box blur.
pub fn box_params(
    width: u32,
    height: u32,
    radius: u32,
    blur_alpha: bool,
    direction: u32,
) -> (bytes: Vec<u8>)
    ensures
        are_words_in_memory(bytes@, box_words(width, height, radius, blur_alpha, direction)),
{
    let alpha: u32 = if blur_alpha {
        1
    } else {
        0
    };
    let words: Vec<u32> = vec![width, height, radius, alpha, direction, 0, 0, 0, 0, 0, 0, 0];
    assert(words@ =~= box_words(width, height, radius, blur_alpha, direction));
    bytes_of_words(&words)
}

/// The bytes of the parameters of a change of size.
pub fn resize_params(src_width: u32, src_height: u32, dst_width: u32, dst_height: u32) -> (bytes:
    Vec<u8>)
    ensures
        are_words_in_memory(
            bytes@,
            resize_words(src_width, src_height, dst_width, dst_height),
        ),
{
    let words: Vec<u32> = vec![
        src_width,
        src_height,
        dst_width,
        dst_height,
        0,
        0,
        0,
        0,
        0,
        0,
        0,
        0,
    ];
    assert(words@ =~= resize_words(src_width, src_height, dst_width, dst_height));
    bytes_of_words(&words)
}

} // verus!
