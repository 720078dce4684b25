//! Images as flat RGBA bytes.

use crate::pixel::{channel, Pixel};
use crate::sampling::pixels_of;
use vstd::prelude::*;

verus! {

/// The bytes of a row: red, green, blue and alpha of one pixel after the other.
pub open spec fn row_bytes(row: Seq<Pixel>) -> Seq<u8> {
    Seq::new(4 * row.len(), |i: int| channel(row[i / 4], i % 4))
}

/// The bytes of an image, row after row.
pub open spec fn image_bytes(image: Seq<Seq<Pixel>>) -> Seq<u8>
    decreases image.len(),
{
    if image.len() == 0 {
        Seq::empty()
    } else {
        image_bytes(image.drop_last()) + row_bytes(image.last())
    }
}

/// The lowest 32 bits of a number.
pub open spec fn low_32(n: nat) -> u32 {
    (n % 0x1_0000_0000) as u32
}

/// The bytes, width and height of an image. The width is that of the first row; both are
/// cut off to 32 bits.
pub open spec fn flattened(image: Seq<Seq<Pixel>>) -> (Seq<u8>, u32, u32) {
    if image.len() == 0 {
        (Seq::empty(), 0, 0)
    } else {
        (image_bytes(image), low_32(image[0].len()), low_32(image.len()))
    }
}

/// The pixel that starts at byte `4 * p`.
pub open spec fn pixel_at(bytes: Seq<u8>, p: int) -> Pixel {
    Pixel { r: bytes[4 * p], g: bytes[4 * p + 1], b: bytes[4 * p + 2], a: bytes[4 * p + 3] }
}

/// How many pixels of row `y` are left where only `count` pixels are there in all.
pub open spec fn row_len(count: nat, width: int, y: int) -> nat {
    if count <= y * width {
        0
    } else if count - y * width < width {
        (count - y * width) as nat
    } else {
        width as nat
    }
}

/// The image with the given bytes. Pixels that the bytes do not cover are left out, so
/// rows at the end may be short or empty.
pub open spec fn image_from_bytes(bytes: Seq<u8>, width: int, height: int) -> Seq<Seq<Pixel>> {
    if bytes.len() == 0 || width == 0 || height == 0 {
        Seq::empty()
    } else {
        Seq::new(
            height as nat,
            |y: int|
                Seq::new(
                    row_len(bytes.len() / 4, width, y),
                    |x: int| pixel_at(bytes, y * width + x),
                ),
        )
    }
}

/// Whether every row of an image has the same length.
pub open spec fn is_rectangular(image: Seq<Seq<Pixel>>) -> bool {
    forall|y: int| 0 <= y < image.len() ==> (#[trigger] image[y]).len() == image[0].len()
}

/// The bytes of an image whose rows have `width` pixels, one by one.
pub proof fn lemma_image_bytes(image: Seq<Seq<Pixel>>, width: nat)
    requires
        forall|y: int| 0 <= y < image.len() ==> (#[trigger] image[y]).len() == width,
    ensures
        image_bytes(image).len() == 4 * (width * image.len()),
        forall|y: int, x: int, c: int|
            0 <= y < image.len() && 0 <= x < width && 0 <= c < 4 ==> image_bytes(image)[4 * (y
                * width + x) + c] == #[trigger] channel(image[y][x], c),
    decreases image.len(),
{
    if image.len() > 0 {
        let n = image.len() - 1;
        let rest = image.drop_last();
        assert forall|y: int| 0 <= y < rest.len() implies (#[trigger] rest[y]).len() == width by {
            assert(rest[y] == image[y]);
        }
        lemma_image_bytes(rest, width);
        assert(width * (n + 1) == width * n + width) by (nonlinear_arith);
        assert(width * n == n * width) by (nonlinear_arith);
        assert forall|y: int, x: int, c: int|
            0 <= y < image.len() && 0 <= x < width && 0 <= c < 4 implies image_bytes(image)[4 * (y
            * width + x) + c] == #[trigger] channel(image[y][x], c) by {
            if y < n {
                assert(y * width + x < n * width) by (nonlinear_arith)
                    requires
                        0 <= y < n,
                        0 <= x < width,
                ;
                assert(y * width >= 0) by (nonlinear_arith)
                    requires
                        y >= 0,
                ;
                assert(channel(rest[y][x], c) == channel(image[y][x], c));
            } else {
                let i = 4 * x + c;
                assert(i / 4 == x && i % 4 == c);
                assert(row_bytes(image.last())[i] == channel(image[y][x], c));
            }
        }
    }
}

/// The bytes of a rectangular image give the image back.
pub proof fn law_bytes_round_trip(image: Seq<Seq<Pixel>>)
    requires
        is_rectangular(image),
        image.len() > 0,
        image[0].len() > 0,
    ensures
        image_from_bytes(image_bytes(image), image[0].len() as int, image.len() as int) == image,
{
    let width = image[0].len();
    let height = image.len();
    let bytes = image_bytes(image);
    let back = image_from_bytes(bytes, width as int, height as int);
    lemma_image_bytes(image, width);
    assert(width * height > 0) by (nonlinear_arith)
        requires
            width > 0,
            height > 0,
    ;
    assert(bytes.len() / 4 == width * height);
    assert forall|y: int| 0 <= y < height implies back[y] =~= image[y] by {
        assert(y * width + width <= width * height && y * width >= 0) by (nonlinear_arith)
            requires
                0 <= y < height,
        ;
        assert(back[y].len() == width);
        assert forall|x: int| 0 <= x < width implies back[y][x] == image[y][x] by {
            let p = image[y][x];
            assert(bytes[4 * (y * width + x) + 0] == channel(p, 0));
            assert(bytes[4 * (y * width + x) + 1] == channel(p, 1));
            assert(bytes[4 * (y * width + x) + 2] == channel(p, 2));
            assert(bytes[4 * (y * width + x) + 3] == channel(p, 3));
        }
    }
    assert(back =~= image);
}

/// Bytes that fill an image exactly are the bytes of that image.
pub proof fn law_image_round_trip(bytes: Seq<u8>, width: nat, height: nat)
    requires
        bytes.len() == 4 * (width * height),
        width > 0,
        height > 0,
    ensures
        image_bytes(image_from_bytes(bytes, width as int, height as int)) == bytes,
        is_rectangular(image_from_bytes(bytes, width as int, height as int)),
{
    let image = image_from_bytes(bytes, width as int, height as int);
    assert(width * height > 0) by (nonlinear_arith)
        requires
            width > 0,
            height > 0,
    ;
    assert forall|y: int| 0 <= y < image.len() implies (#[trigger] image[y]).len() == width by {
        assert(y * width + width <= width * height) by (nonlinear_arith)
            requires
                0 <= y < height,
        ;
    }
    lemma_image_bytes(image, width);
    let back = image_bytes(image);
    assert forall|i: int| 0 <= i < bytes.len() implies back[i] == bytes[i] by {
        let p = i / 4;
        let c = i % 4;
        let y = p / width as int;
        let x = p % width as int;
        vstd::arithmetic::div_mod::lemma_fundamental_div_mod(p, width as int);
        assert(p == y * width + x) by (nonlinear_arith)
            requires
                p == width * y + x,
        ;
        assert(0 <= y < height) by (nonlinear_arith)
            requires
                0 <= p < width * height,
                y == p / width as int,
                width > 0,
        ;
        assert(0 <= x < width) by (nonlinear_arith)
            requires
                x == p % width as int,
                width > 0,
        ;
        assert(back[4 * (y * width + x) + c] == channel(image[y][x], c));
        assert(image[y][x] == pixel_at(bytes, p));
    }
    assert(back =~= bytes);
}

/// Where the bytes of an image stand: four for each pixel, from left to right and from top to
/// bottom, and of these red first, then green, blue and alpha.
pub proof fn law_bytes_layout(image: Seq<Seq<Pixel>>, y: int, x: int)
    requires
        is_rectangular(image),
        0 <= y < image.len(),
        0 <= x < image[0].len(),
    ensures
        ({
            let bytes = image_bytes(image);
            let at = 4 * (y * image[0].len() + x);
            &&& bytes.len() == 4 * (image[0].len() * image.len())
            &&& 0 <= at
            &&& at + 3 < bytes.len()
            &&& bytes[at] == image[y][x].r
            &&& bytes[at + 1] == image[y][x].g
            &&& bytes[at + 2] == image[y][x].b
            &&& bytes[at + 3] == image[y][x].a
        }),
{
    let width = image[0].len();
    let height = image.len();
    lemma_image_bytes(image, width);
    assert(0 <= y * width + x < width * height) by (nonlinear_arith)
        requires
            0 <= y < height,
            0 <= x < width,
    ;
    let p = image[y][x];
    assert(image_bytes(image)[4 * (y * width + x) + 0] == channel(p, 0));
    assert(image_bytes(image)[4 * (y * width + x) + 1] == channel(p, 1));
    assert(image_bytes(image)[4 * (y * width + x) + 2] == channel(p, 2));
    assert(image_bytes(image)[4 * (y * width + x) + 3] == channel(p, 3));
}

/// The bytes of an image whose rows are put under those of another are the bytes of both, one
/// after the other, whatever the lengths of the rows; and a pixel by itself gives its channels.
pub proof fn law_bytes_of_joined_images(a: Seq<Seq<Pixel>>, b: Seq<Seq<Pixel>>, pixel: Pixel)
    ensures
        image_bytes(a + b) == image_bytes(a) + image_bytes(b),
        image_bytes(seq![seq![pixel]]) == seq![pixel.r, pixel.g, pixel.b, pixel.a],
    decreases b.len(),
{
    let single = seq![seq![pixel]];
    assert(single.drop_last() =~= Seq::<Seq<Pixel>>::empty());
    assert(image_bytes(single.drop_last()) =~= Seq::<u8>::empty());
    assert(image_bytes(single) =~= seq![pixel.r, pixel.g, pixel.b, pixel.a]);
    if b.len() == 0 {
        assert(a + b =~= a);
        assert(image_bytes(a) + image_bytes(b) =~= image_bytes(a));
    } else {
        law_bytes_of_joined_images(a, b.drop_last(), pixel);
        assert((a + b).drop_last() =~= a + b.drop_last());
        assert((a + b).last() == b.last());
        assert(image_bytes(a + b) =~= image_bytes(a) + image_bytes(b));
    }
}

/// The size that goes with the bytes of an image is its width and then its height, where these
/// have up to 32 bits.
pub proof fn law_flattened_image(image: Seq<Seq<Pixel>>)
    requires
        image.len() > 0,
        image.len() < 0x1_0000_0000,
        image[0].len() < 0x1_0000_0000,
    ensures
        flattened(image).0 == image_bytes(image),
        flattened(image).1 == image[0].len(),
        flattened(image).2 == image.len(),
{
}

/// No bytes, no width or no height make no rows, and no rows make no bytes and no size. A size of
/// more than 32 bits loses whole multiples of two to the power of 32 only.
pub proof fn law_nothing_is_flat(bytes: Seq<u8>, width: int, height: int, n: nat)
    ensures
        bytes.len() == 0 || width == 0 || height == 0 ==> image_from_bytes(
            bytes,
            width,
            height,
        ).len() == 0,
        flattened(Seq::empty()).0.len() == 0,
        flattened(Seq::empty()).1 == 0,
        flattened(Seq::empty()).2 == 0,
        low_32(n) <= n,
        (n - low_32(n)) % 0x1_0000_0000 == 0,
{
}

/// Where the pixels of bytes go: the pixel in row `y` and column `x` is made of the four bytes
/// from `4 * (y * width + x)` on, red first, and it is there if and only if these four are.
pub proof fn law_image_layout(bytes: Seq<u8>, width: int, height: int, y: int, x: int)
    requires
        bytes.len() > 0,
        width > 0,
        height > 0,
        0 <= y < height,
        0 <= x,
    ensures
        ({
            let image = image_from_bytes(bytes, width, height);
            let at = 4 * (y * width + x);
            &&& image.len() == height
            &&& x < image[y].len() <==> x < width && at + 3 < bytes.len()
            &&& x < image[y].len() ==> image[y][x] == (Pixel {
                r: bytes[at],
                g: bytes[at + 1],
                b: bytes[at + 2],
                a: bytes[at + 3],
            })
        }),
{
    let count = bytes.len() / 4;
    assert(y * width >= 0) by (nonlinear_arith)
        requires
            y >= 0,
            width > 0,
    ;
    assert(4 * (y * width + x) + 3 < bytes.len() <==> y * width + x < count);
}

/// The size of a machine word, cut off to 32 bits.
pub(crate) fn to_u32(n: usize) -> (r: u32)
    ensures
        r == low_32(n as nat),
{
    let wide: u64 = n as u64;
    assert(wide as u32 == wide % 0x1_0000_0000) by (bit_vector);
    wide as u32
}

/// The bytes of an image.
pub fn bytes_of_image(image: &[Vec<Pixel>]) -> (bytes: Vec<u8>)
    ensures
        bytes@ == image_bytes(pixels_of(image@)),
{
    let ghost pixels = pixels_of(image@);
    let mut bytes: Vec<u8> = Vec::new();
    assert(pixels.take(0) =~= Seq::empty());
    for y in 0..image.len()
        invariant
            pixels == pixels_of(image@),
            bytes@ == image_bytes(pixels.take(y as int)),
    {
        let row = &image[y];
        let ghost before = bytes@;
        assert(before + row_bytes(row@.take(0)) =~= before);
        for x in 0..row.len()
            invariant
                bytes@ == before + row_bytes(row@.take(x as int)),
        {
            let pixel = row[x];
            let ghost start = bytes@;
            bytes.push(pixel.r);
            bytes.push(pixel.g);
            bytes.push(pixel.b);
            bytes.push(pixel.a);
            proof {
                let shorter = row_bytes(row@.take(x as int));
                let longer = row_bytes(row@.take(x + 1));
                assert(longer =~= shorter + seq![pixel.r, pixel.g, pixel.b, pixel.a]);
                assert(bytes@ =~= start + seq![pixel.r, pixel.g, pixel.b, pixel.a]);
                assert(bytes@ =~= before + longer);
            }
        }
        proof {
            assert(row@.take(row@.len() as int) =~= row@);
            assert(pixels.take(y + 1).drop_last() =~= pixels.take(y as int));
            assert(pixels.take(y + 1).last() == row@);
        }
    }
    assert(pixels.take(pixels.len() as int) =~= pixels);
    bytes
}

/// The image with the given bytes, as far as these go.
pub fn unflatten(bytes: &[u8], width: usize, height: usize) -> (r: Vec<Vec<Pixel>>)
    ensures
        pixels_of(r@) == image_from_bytes(bytes@, width as int, height as int),
{
    let mut result: Vec<Vec<Pixel>> = Vec::new();
    if bytes.len() == 0 || width == 0 || height == 0 {
        assert(pixels_of(result@) =~= Seq::<Seq<Pixel>>::empty());
        return result;
    }
    let ghost want = image_from_bytes(bytes@, width as int, height as int);
    let ghost count = bytes@.len() / 4;
    let mut offset: usize = 0;
    assert(0 * width == 0);
    for y in 0..height
        invariant
            width > 0,
            count == bytes@.len() / 4,
            want == image_from_bytes(bytes@, width as int, height as int),
            want.len() == height,
            offset == 4 * if count <= y * width {
                count as int
            } else {
                y * width
            },
            result@.len() == y,
            forall|i: int| 0 <= i < y ==> (#[trigger] result@[i]@) == want[i],
    {
        let ghost base = y * width;
        let mut row: Vec<Pixel> = Vec::new();
        for x in 0..width
            invariant
                count == bytes@.len() / 4,
                base >= 0,
                row@.len() == if count <= base {
                    0
                } else if count - base < x {
                    count - base
                } else {
                    x as int
                },
                offset == 4 * if count <= base + x {
                    count as int
                } else {
                    base + x
                },
                forall|i: int| 0 <= i < row@.len() ==> row@[i] == pixel_at(bytes@, base + i),
        {
            if bytes.len() - offset > 3 {
                row.push(Pixel::new(
                    bytes[offset],
                    bytes[offset + 1],
                    bytes[offset + 2],
                    bytes[offset + 3],
                ));
                offset = offset + 4;
            }
        }
        assert((y + 1) * width == base + width) by (nonlinear_arith)
            requires
                base == y * width,
        ;
        assert(row@ =~= want[y as int]);
        result.push(row);
    }
    assert(pixels_of(result@) =~= want);
    result
}

} // verus!
