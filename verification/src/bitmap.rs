//! The pixel buffer that the library works on.
//!
//! A [`Bitmap`] keeps an `image::RgbaImage`. Verus does not look inside it:
//! this module names what the image holds and gives a contract to each of
//! the few methods of the `image` crate that the library calls. Those
//! contracts are believed, not proved.

use vstd::prelude::*;
use crate::grid::{in_grid, index_of, lemma_index_bound, neighbors_spec};

verus! {

/// One pixel: three colour channels and alpha, eight bits each.
#[derive(Clone, Copy, Debug, PartialEq, Eq, Structural)]
pub struct Rgba8 {
    pub r: u8,
    pub g: u8,
    pub b: u8,
    pub a: u8,
}

/// What a bitmap is to a specification: its size and its pixels in row-major
/// order, so that the pixel in column `x` of row `y` stands at index
/// `y * width + x`.
pub struct Grid {
    pub width: nat,
    pub height: nat,
    pub pixels: Seq<Rgba8>,
}

impl Grid {
    /// There is one pixel for each cell.
    pub open spec fn wf(self) -> bool {
        self.pixels.len() == self.width * self.height
    }

    /// `(x, y)` is a cell of this grid.
    pub open spec fn has(self, x: int, y: int) -> bool {
        in_grid(self.width as int, self.height as int, x, y)
    }

    /// The pixel in column `x` of row `y`.
    pub open spec fn at(self, x: int, y: int) -> Rgba8 {
        self.pixels[index_of(self.width as int, x, y)]
    }

    /// The cells of this grid around `(x, y)`, clockwise from the right.
    pub open spec fn around(self, x: int, y: int) -> Seq<(int, int)> {
        neighbors_spec(x, y, self.width as int, self.height as int)
    }
}

/// An RGBA image in memory, kept in the `image` crate's own buffer.
#[verifier::external_body]
pub struct Bitmap {
    image: image::RgbaImage,
}

/// The width of the image in pixels, as `ImageBuffer::width` reports it.
pub uninterp spec fn image_width(img: Bitmap) -> nat;

/// The height of the image in pixels, as `ImageBuffer::height` reports it.
pub uninterp spec fn image_height(img: Bitmap) -> nat;

/// The storage of the image, byte by byte. It holds the pixels row by row,
/// four bytes each, and may go on behind the last pixel.
pub uninterp spec fn image_bytes(img: Bitmap) -> Seq<u8>;

/// The pixel that `bytes` spell out at place `i`, four bytes a pixel: red,
/// green, blue, alpha.
pub open spec fn pixel_in(bytes: Seq<u8>, i: int) -> Rgba8 {
    Rgba8 { r: bytes[4 * i], g: bytes[4 * i + 1], b: bytes[4 * i + 2], a: bytes[4 * i + 3] }
}

/// The first `n` pixels that `bytes` spell out.
pub open spec fn pixels_of(bytes: Seq<u8>, n: nat) -> Seq<Rgba8> {
    Seq::new(n, |i: int| pixel_in(bytes, i))
}

/// `bytes` with the four bytes of `p` at the place of pixel `i`.
pub open spec fn with_pixel(bytes: Seq<u8>, i: int, p: Rgba8) -> Seq<u8> {
    bytes.update(4 * i, p.r).update(4 * i + 1, p.g).update(4 * i + 2, p.b).update(4 * i + 3, p.a)
}

impl View for Bitmap {
    type V = Grid;

    open spec fn view(&self) -> Grid {
        Grid {
            width: image_width(*self),
            height: image_height(*self),
            pixels: pixels_of(image_bytes(*self), image_width(*self) * image_height(*self)),
        }
    }
}

impl Bitmap {
    /// The storage of the image, byte by byte.
    pub open spec fn bytes(&self) -> Seq<u8> {
        image_bytes(*self)
    }

    /// The bytes of the storage behind the last pixel.
    pub open spec fn spare(&self) -> Seq<u8> {
        image_bytes(*self).skip(4 * (image_width(*self) * image_height(*self)) as int)
    }
}

/// `ImageBuffer::dimensions`: width and height. An image buffer is only ever
/// built over storage that holds four bytes for each of its `width * height`
/// pixels.
#[verifier::external_body]
pub(crate) fn dimensions(img: &Bitmap) -> (d: (u32, u32))
    ensures
        d.0 == image_width(*img),
        d.1 == image_height(*img),
        4 * (d.0 * d.1) <= image_bytes(*img).len() <= usize::MAX,
{
    img.image.dimensions()
}

/// `ImageBuffer::get_pixel`, which panics outside the image: the four bytes
/// of the pixel in column `x` of row `y`.
#[verifier::external_body]
fn read_pixel(img: &Bitmap, x: u32, y: u32) -> (p: Rgba8)
    requires
        x < image_width(*img),
        y < image_height(*img),
    ensures
        p == pixel_in(image_bytes(*img), y * image_width(*img) + x),
{
    let image::Rgba([r, g, b, a]) = *img.image.get_pixel(x, y);
    Rgba8 { r, g, b, a }
}

/// `ImageBuffer::put_pixel`, which panics outside the image: the four bytes
/// of the pixel in column `x` of row `y` are replaced, the size and every
/// other byte stay.
#[verifier::external_body]
fn write_pixel(img: &mut Bitmap, x: u32, y: u32, p: Rgba8)
    requires
        x < image_width(*old(img)),
        y < image_height(*old(img)),
    ensures
        image_width(*final(img)) == image_width(*old(img)),
        image_height(*final(img)) == image_height(*old(img)),
        image_bytes(*final(img)) == with_pixel(
            image_bytes(*old(img)),
            y * image_width(*old(img)) + x,
            p,
        ),
{
    img.image.put_pixel(x, y, image::Rgba([p.r, p.g, p.b, p.a]));
}

/// `ImageBuffer::from_raw`: an image over the storage `data`, unless `data`
/// is too short for `width * height` pixels of four bytes, or four times
/// the width alone is more than a `usize` holds: the length needed is
/// worked out as four times the width, times the height, and neither
/// product may overflow.
#[verifier::external_body]
fn image_from_raw(width: u32, height: u32, data: Vec<u8>) -> (r: Option<Bitmap>)
    ensures
        r is Some <==> (4 * width <= usize::MAX && 4 * (width * height) <= data@.len()),
        r matches Some(img) ==> image_width(img) == width && image_height(img) == height
            && image_bytes(img) == data@,
{
    match image::RgbaImage::from_raw(width, height, data) {
        Some(image) => Some(Bitmap { image }),
        None => None,
    }
}

/// `ImageBuffer::into_raw`: the storage of the image.
#[verifier::external_body]
fn image_into_raw(img: Bitmap) -> (data: Vec<u8>)
    ensures
        data@ == image_bytes(img),
{
    img.image.into_raw()
}

/// Replacing the four bytes of pixel `i` replaces that pixel and nothing
/// else.
pub proof fn lemma_with_pixel(bytes: Seq<u8>, n: nat, i: int, p: Rgba8)
    requires
        0 <= i < n,
        4 * n <= bytes.len(),
    ensures
        with_pixel(bytes, i, p).len() == bytes.len(),
        pixels_of(with_pixel(bytes, i, p), n) == pixels_of(bytes, n).update(i, p),
        with_pixel(bytes, i, p).skip(4 * n as int) == bytes.skip(4 * n as int),
{
    let after = with_pixel(bytes, i, p);
    assert forall|k: int| 0 <= k < n implies #[trigger] pixels_of(after, n)[k] == pixels_of(
        bytes,
        n,
    ).update(i, p)[k] by {
        if k != i {
            assert(pixel_in(after, k) == pixel_in(bytes, k));
        }
    }
    assert(pixels_of(after, n) =~= pixels_of(bytes, n).update(i, p));
    assert(after.skip(4 * n as int) =~= bytes.skip(4 * n as int));
}

/// The pixel in column `x` of row `y`.
pub(crate) fn get_pixel(img: &Bitmap, x: u32, y: u32) -> (p: Rgba8)
    requires
        x < img@.width,
        y < img@.height,
    ensures
        p == img@.at(x as int, y as int),
{
    proof {
        lemma_index_bound(img@.width as int, img@.height as int, x as int, y as int);
    }
    read_pixel(img, x, y)
}

/// Puts `p` in column `x` of row `y`. The size, every other pixel and the
/// bytes behind the last pixel stay.
pub(crate) fn put_pixel(img: &mut Bitmap, x: u32, y: u32, p: Rgba8)
    requires
        x < old(img)@.width,
        y < old(img)@.height,
    ensures
        final(img)@.width == old(img)@.width,
        final(img)@.height == old(img)@.height,
        final(img)@.pixels == old(img)@.pixels.update(
            index_of(old(img)@.width as int, x as int, y as int),
            p,
        ),
        final(img).spare() == old(img).spare(),
        final(img).bytes().len() == old(img).bytes().len(),
{
    // the storage holds every pixel of the image
    let _ = dimensions(img);
    proof {
        lemma_index_bound(img@.width as int, img@.height as int, x as int, y as int);
        lemma_with_pixel(
            img.bytes(),
            img@.width * img@.height,
            index_of(img@.width as int, x as int, y as int),
            p,
        );
    }
    write_pixel(img, x, y, p);
}

impl Bitmap {
    /// An image of `width` x `height` pixels over the storage `data`, which
    /// holds the pixels row by row, four bytes each: red, green, blue,
    /// alpha. `None` if `data` is too short, or if a single row of four
    /// bytes a pixel is longer than a `usize` can say. Bytes behind the last
    /// pixel are carried along.
    pub fn from_raw(width: u32, height: u32, data: Vec<u8>) -> (r: Option<Bitmap>)
        ensures
            r is Some <==> (4 * width <= usize::MAX && 4 * (width * height) <= data@.len()),
            r matches Some(img) ==> img.bytes() == data@ && img@ == (Grid {
                width: width as nat,
                height: height as nat,
                pixels: pixels_of(data@, (width * height) as nat),
            }),
    {
        image_from_raw(width, height, data)
    }

    /// The storage of the image: four bytes for each pixel, row by row, and
    /// behind them the bytes that were carried along.
    pub fn into_raw(self) -> (data: Vec<u8>)
        ensures
            data@ == self.bytes(),
    {
        image_into_raw(self)
    }
}

} // verus!
