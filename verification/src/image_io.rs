//! Conversions between pixels and the RGBA images of the `image` crate.

use crate::bytes::is_rectangular;
use crate::pixel::Pixel;
use crate::sampling::{covers_width, pixels_of};
use vstd::prelude::*;

verus! {

/// An RGBA image, kept in an `image::RgbaImage`.
#[verifier::external_body]
pub struct RgbaImage {
    buffer: image::RgbaImage,
}

/// What an image holds: its rows from top to bottom, and in each the red, green, blue
/// and alpha of its pixels from left to right.
pub uninterp spec fn rgba_rows(img: RgbaImage) -> Seq<Seq<(u8, u8, u8, u8)>>;

/// The width of an image, also where it has no rows.
pub uninterp spec fn rgba_width(img: RgbaImage) -> nat;

/// Whether an image of this size fits into a vector of bytes.
pub open spec fn fits_memory(width: int, height: int) -> bool {
    &&& 0 <= width <= u32::MAX
    &&& 0 <= height <= u32::MAX
    &&& 4 * width <= isize::MAX
    &&& 4 * (width * height) <= isize::MAX
}

/// Rows of so many transparent black pixels.
pub open spec fn blank_rows(width: nat, height: nat) -> Seq<Seq<(u8, u8, u8, u8)>> {
    Seq::new(height, |y: int| Seq::new(width, |x: int| (0u8, 0u8, 0u8, 0u8)))
}

/// `image::ImageBuffer::new`: an image of the given size with every channel zero. It panics
/// where the image is larger than a vector can be, which `requires` leaves out.
#[verifier::external_body]
fn buffer_new(width: u32, height: u32) -> (img: RgbaImage)
    requires
        fits_memory(width as int, height as int),
    ensures
        rgba_rows(img) == blank_rows(width as nat, height as nat),
        rgba_width(img) == width,
{
    RgbaImage { buffer: image::RgbaImage::new(width, height) }
}

/// `image::ImageBuffer::width`: the length of every row.
#[verifier::external_body]
fn buffer_width(img: &RgbaImage) -> (w: u32)
    ensures
        w == rgba_width(*img),
        forall|y: int|
            0 <= y < rgba_rows(*img).len() ==> (#[trigger] rgba_rows(*img)[y]).len() == w,
{
    img.buffer.width()
}

/// `image::ImageBuffer::height`: the number of rows.
#[verifier::external_body]
fn buffer_height(img: &RgbaImage) -> (h: u32)
    ensures
        h == rgba_rows(*img).len(),
{
    img.buffer.height()
}

/// `image::ImageBuffer::get_pixel`: the colour at a place. It panics outside the image, which
/// `requires` leaves out.
#[verifier::external_body]
fn buffer_get_pixel(img: &RgbaImage, x: u32, y: u32) -> (p: (u8, u8, u8, u8))
    requires
        y < rgba_rows(*img).len(),
        x < rgba_rows(*img)[y as int].len(),
    ensures
        p == rgba_rows(*img)[y as int][x as int],
{
    let rgba = img.buffer.get_pixel(x, y).0;
    (rgba[0], rgba[1], rgba[2], rgba[3])
}

/// `image::ImageBuffer::put_pixel`: sets the colour at a place and nothing else. It panics
/// outside the image, which `requires` leaves out.
#[verifier::external_body]
fn buffer_put_pixel(img: &mut RgbaImage, x: u32, y: u32, p: (u8, u8, u8, u8))
    requires
        y < rgba_rows(*old(img)).len(),
        x < rgba_rows(*old(img))[y as int].len(),
    ensures
        rgba_rows(*final(img)) == rgba_rows(*old(img)).update(
            y as int,
            rgba_rows(*old(img))[y as int].update(x as int, p),
        ),
        rgba_width(*final(img)) == rgba_width(*old(img)),
{
    img.buffer.put_pixel(x, y, image::Rgba([p.0, p.1, p.2, p.3]));
}

/// The pixel with the given channels.
pub open spec fn pixel_of(p: (u8, u8, u8, u8)) -> Pixel {
    Pixel { r: p.0, g: p.1, b: p.2, a: p.3 }
}

/// The channels of a pixel.
pub open spec fn channels_of(p: Pixel) -> (u8, u8, u8, u8) {
    (p.r, p.g, p.b, p.a)
}

/// The pixels of the rows of an image.
pub open spec fn pixels_of_rows(rows: Seq<Seq<(u8, u8, u8, u8)>>) -> Seq<Seq<Pixel>> {
    Seq::new(rows.len(), |y: int| Seq::new(rows[y].len(), |x: int| pixel_of(rows[y][x])))
}

/// The rows of an image with the given pixels, as wide as the first row.
pub open spec fn rows_of_pixels(pixels: Seq<Seq<Pixel>>) -> Seq<Seq<(u8, u8, u8, u8)>> {
    Seq::new(
        pixels.len(),
        |y: int| Seq::new(pixels[0].len(), |x: int| channels_of(pixels[y][x])),
    )
}

impl RgbaImage {
    /// A transparent black image.
    pub fn new(width: u32, height: u32) -> (img: RgbaImage)
        requires
            fits_memory(width as int, height as int),
        ensures
            rgba_rows(img) == blank_rows(width as nat, height as nat),
            rgba_width(img) == width,
    {
        buffer_new(width, height)
    }

    /// The width, which is the length of every row.
    pub fn width(&self) -> (w: u32)
        ensures
            w == rgba_width(*self),
            forall|y: int|
                0 <= y < rgba_rows(*self).len() ==> (#[trigger] rgba_rows(*self)[y]).len() == w,
    {
        buffer_width(self)
    }

    /// The height.
    pub fn height(&self) -> (h: u32)
        ensures
            h == rgba_rows(*self).len(),
    {
        buffer_height(self)
    }

    /// The pixel at a place, or none outside the image.
    pub fn get_pixel(&self, x: u32, y: u32) -> (p: Option<Pixel>)
        ensures
            p == if y < rgba_rows(*self).len() && x < rgba_width(*self) {
                Some(pixel_of(rgba_rows(*self)[y as int][x as int]))
            } else {
                None
            },
    {
        let width = buffer_width(self);
        if y < buffer_height(self) && x < width {
            let (r, g, b, a) = buffer_get_pixel(self, x, y);
            Some(Pixel::new(r, g, b, a))
        } else {
            None
        }
    }

    /// Sets the pixel at a place, and says whether that lies inside the image.
    pub fn put_pixel(&mut self, x: u32, y: u32, pixel: Pixel) -> (inside: bool)
        ensures
            inside == (y < rgba_rows(*old(self)).len() && x < rgba_width(*old(self))),
            rgba_width(*final(self)) == rgba_width(*old(self)),
            rgba_rows(*final(self)) == if inside {
                rgba_rows(*old(self)).update(
                    y as int,
                    rgba_rows(*old(self))[y as int].update(x as int, channels_of(pixel)),
                )
            } else {
                rgba_rows(*old(self))
            },
    {
        let width = buffer_width(self);
        if y < buffer_height(self) && x < width {
            buffer_put_pixel(self, x, y, (pixel.r, pixel.g, pixel.b, pixel.a));
            true
        } else {
            false
        }
    }
}

/// Convert an RGBA image to rows of pixels
pub fn image_to_pixels(img: &RgbaImage) -> (pixels: Vec<Vec<Pixel>>)
    ensures
        pixels_of(pixels@) == pixels_of_rows(rgba_rows(*img)),
        is_rectangular(pixels_of(pixels@)),
{
    let width = buffer_width(img);
    let height = buffer_height(img);
    let ghost want = pixels_of_rows(rgba_rows(*img));
    let mut pixels: Vec<Vec<Pixel>> = Vec::new();
    for y in 0..height
        invariant
            want == pixels_of_rows(rgba_rows(*img)),
            height == rgba_rows(*img).len(),
            forall|i: int|
                0 <= i < rgba_rows(*img).len() ==> (#[trigger] rgba_rows(*img)[i]).len() == width,
            pixels@.len() == y,
            forall|i: int| 0 <= i < y ==> (#[trigger] pixels@[i]@) == want[i],
    {
        let mut row: Vec<Pixel> = Vec::new();
        for x in 0..width
            invariant
                want == pixels_of_rows(rgba_rows(*img)),
                y < rgba_rows(*img).len(),
                rgba_rows(*img)[y as int].len() == width,
                row@.len() == x,
                forall|i: int| 0 <= i < x ==> row@[i] == want[y as int][i],
        {
            let (r, g, b, a) = buffer_get_pixel(img, x, y);
            row.push(Pixel::new(r, g, b, a));
        }
        assert(row@ =~= want[y as int]);
        pixels.push(row);
    }
    assert(pixels_of(pixels@) =~= want);
    pixels
}

/// Convert rows of pixels to an RGBA image
pub fn pixels_to_image(pixels: &[Vec<Pixel>]) -> (img: RgbaImage)
    requires
        pixels@.len() > 0,
        covers_width(pixels@),
        fits_memory(pixels@[0]@.len() as int, pixels@.len() as int),
    ensures
        rgba_rows(img) == rows_of_pixels(pixels_of(pixels@)),
        rgba_width(img) == pixels@[0]@.len(),
{
    let height = pixels.len() as u32;
    let width = pixels[0].len() as u32;
    let ghost want = rows_of_pixels(pixels_of(pixels@));
    let ghost blank = blank_rows(width as nat, height as nat);
    let mut img = buffer_new(width, height);
    for y in 0..height
        invariant
            covers_width(pixels@),
            height == pixels@.len(),
            width == pixels@[0]@.len(),
            want == rows_of_pixels(pixels_of(pixels@)),
            rgba_width(img) == width,
            rgba_rows(img).len() == height,
            forall|i: int| 0 <= i < height ==> (#[trigger] rgba_rows(img)[i]).len() == width,
            forall|i: int| 0 <= i < y ==> (#[trigger] rgba_rows(img)[i]) == want[i],
    {
        assert(pixels@[0]@.len() <= pixels@[y as int]@.len());
        for x in 0..width
            invariant
                y < height,
                height == pixels@.len(),
                width == pixels@[0]@.len(),
                width <= pixels@[y as int]@.len(),
                want == rows_of_pixels(pixels_of(pixels@)),
                rgba_width(img) == width,
                rgba_rows(img).len() == height,
                forall|i: int| 0 <= i < height ==> (#[trigger] rgba_rows(img)[i]).len() == width,
                forall|i: int| 0 <= i < y ==> (#[trigger] rgba_rows(img)[i]) == want[i],
                forall|i: int| 0 <= i < x ==> rgba_rows(img)[y as int][i] == want[y as int][i],
        {
            let pixel = pixels[y as usize][x as usize];
            buffer_put_pixel(&mut img, x, y, (pixel.r, pixel.g, pixel.b, pixel.a));
        }
        assert(rgba_rows(img)[y as int] =~= want[y as int]);
    }
    assert(rgba_rows(img) =~= want);
    img
}

/// A pixel of an image has the channels that the image holds there: red first, then green, blue and
/// alpha; both when an image is read and when one is made.
pub proof fn law_channels_keep_their_order(
    rows: Seq<Seq<(u8, u8, u8, u8)>>,
    pixels: Seq<Seq<Pixel>>,
    y: int,
    x: int,
)
    requires
        0 <= y < rows.len(),
        0 <= x < rows[y].len(),
        rows.len() == pixels.len(),
        rows[y].len() == pixels[0].len(),
        pixels_of_rows(rows) == pixels || rows_of_pixels(pixels) == rows,
    ensures
        pixels[y][x].r == rows[y][x].0,
        pixels[y][x].g == rows[y][x].1,
        pixels[y][x].b == rows[y][x].2,
        pixels[y][x].a == rows[y][x].3,
{
    if pixels_of_rows(rows) == pixels {
        assert(pixels[y] == pixels_of_rows(rows)[y]);
        assert(pixels[y][x] == pixels_of_rows(rows)[y][x]);
    } else {
        assert(rows[y] == rows_of_pixels(pixels)[y]);
        assert(rows[y][x] == rows_of_pixels(pixels)[y][x]);
    }
}

/// A pixel can be read if and only if its column lies within the width of the image and its row
/// within the height, and it has the channels that the image holds there.
pub proof fn law_pixel_is_read(
    img: RgbaImage,
    x: u32,
    y: u32,
    width: u32,
    height: u32,
    pixel: Option<Pixel>,
)
    requires
        call_ensures(RgbaImage::width, (&img,), width),
        call_ensures(RgbaImage::height, (&img,), height),
        call_ensures(RgbaImage::get_pixel, (&img, x, y), pixel),
    ensures
        pixel is Some <==> x < width && y < height,
        pixel matches Some(p) ==> (p.r, p.g, p.b, p.a) == rgba_rows(img)[y as int][x as int],
{
}

/// A new image has the size that was asked for, and every channel of it is zero.
pub proof fn law_new_image_is_blank(width: u32, height: u32, img: RgbaImage, y: int, x: int)
    requires
        call_ensures(RgbaImage::new, (width, height), img),
        0 <= y < height,
        0 <= x < width,
    ensures
        rgba_rows(img).len() == height,
        rgba_rows(img)[y].len() == width,
        rgba_rows(img)[y][x] == (0u8, 0u8, 0u8, 0u8),
{
}

/// Pixels that are made an image and pixels again are the same, and the image holds their red,
/// green, blue and alpha in this order.
pub proof fn law_image_of_pixels(
    pixels: &[Vec<Pixel>],
    img: RgbaImage,
    back: Vec<Vec<Pixel>>,
    y: int,
    x: int,
)
    requires
        call_ensures(pixels_to_image, (pixels,), img),
        call_ensures(image_to_pixels, (&img,), back),
        is_rectangular(pixels_of(pixels@)),
        0 <= y < pixels@.len(),
        0 <= x < pixels@[0]@.len(),
    ensures
        pixels_of(back@) == pixels_of(pixels@),
        rgba_rows(img).len() == pixels@.len(),
        rgba_rows(img)[y].len() == pixels@[0]@.len(),
        rgba_rows(img)[y][x].0 == pixels@[y]@[x].r,
        rgba_rows(img)[y][x].1 == pixels@[y]@[x].g,
        rgba_rows(img)[y][x].2 == pixels@[y]@[x].b,
        rgba_rows(img)[y][x].3 == pixels@[y]@[x].a,
{
    law_pixels_round_trip(pixels_of(pixels@));
    assert(pixels_of(pixels@)[y] == pixels@[y]@);
}

/// Making an image of rectangular pixels and reading it back gives the same pixels.
pub proof fn law_pixels_round_trip(pixels: Seq<Seq<Pixel>>)
    requires
        is_rectangular(pixels),
    ensures
        pixels_of_rows(rows_of_pixels(pixels)) == pixels,
{
    let back = pixels_of_rows(rows_of_pixels(pixels));
    assert forall|y: int| 0 <= y < pixels.len() implies back[y] =~= pixels[y] by {}
    assert(back =~= pixels);
}

/// Reading the pixels of an image and making an image of them gives the same rows.
pub proof fn law_rows_round_trip(rows: Seq<Seq<(u8, u8, u8, u8)>>, width: nat)
    requires
        forall|y: int| 0 <= y < rows.len() ==> (#[trigger] rows[y]).len() == width,
    ensures
        rows_of_pixels(pixels_of_rows(rows)) == rows,
{
    let back = rows_of_pixels(pixels_of_rows(rows));
    assert forall|y: int| 0 <= y < rows.len() implies back[y] =~= rows[y] by {
        assert(rows[0].len() == width);
    }
    assert(back =~= rows);
}

} // verus!
