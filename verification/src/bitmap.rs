//! Dense grids of 8-bit values: the coverage images that a rasteriser produces
//! and the distance fields built from them.
//!
//! The pixels live in a `GrayImage` of the `image` crate. Its methods are reached
//! through a handful of small wrappers whose contracts are stated over three
//! uninterpreted functions: the width, the height and the pixel at each
//! coordinate.
use image::GrayImage;
use image::Luma;
use vstd::prelude::*;

verus! {

/// A grey-scale image: a `GrayImage` of the `image` crate, which is opaque
/// here. What it holds is told by `bitmap_width`, `bitmap_height` and
/// `bitmap_pixels`.
#[verifier::external_body]
#[derive(Debug)]
pub struct Bitmap {
    inner: GrayImage,
}

/// The number of columns of a bitmap.
pub uninterp spec fn bitmap_width(image: Bitmap) -> nat;

/// The number of rows of a bitmap.
pub uninterp spec fn bitmap_height(image: Bitmap) -> nat;

/// The value stored at each coordinate `(x, y)` of a bitmap.
pub uninterp spec fn bitmap_pixels(image: Bitmap) -> Map<(int, int), u8>;

impl Bitmap {
    pub open spec fn width_spec(&self) -> nat {
        bitmap_width(*self)
    }

    pub open spec fn height_spec(&self) -> nat {
        bitmap_height(*self)
    }

    /// The value at column `x`, row `y`.
    pub open spec fn at(&self, x: int, y: int) -> u8 {
        bitmap_pixels(*self)[(x, y)]
    }

    /// Whether `(x, y)` names a pixel of this bitmap.
    pub open spec fn covers(&self, x: int, y: int) -> bool {
        0 <= x < self.width_spec() && 0 <= y < self.height_spec()
    }

    /// `ImageBuffer::new`: a bitmap of the given size with every pixel zero.
    /// The call panics when the buffer would be longer than a vector may be,
    /// which the precondition rules out.
    #[verifier::external_body]
    pub(crate) fn new(width: u32, height: u32) -> (image: Bitmap)
        requires
            width * height <= isize::MAX,
        ensures
            bitmap_width(image) == width,
            bitmap_height(image) == height,
            forall|x: int, y: int|
                0 <= x < width && 0 <= y < height ==> #[trigger] bitmap_pixels(image)[(x, y)] == 0,
    {
        Bitmap { inner: GrayImage::new(width, height) }
    }

    /// `ImageBuffer::width`.
    #[verifier::external_body]
    pub(crate) fn width(&self) -> (width: u32)
        ensures
            width == bitmap_width(*self),
    {
        self.inner.width()
    }

    /// `ImageBuffer::height`.
    #[verifier::external_body]
    pub(crate) fn height(&self) -> (height: u32)
        ensures
            height == bitmap_height(*self),
    {
        self.inner.height()
    }

    /// `ImageBuffer::get_pixel`, which panics outside the image: the value
    /// of the one channel of the pixel at `(x, y)`.
    #[verifier::external_body]
    pub(crate) fn get_pixel(&self, x: u32, y: u32) -> (value: u8)
        requires
            self.covers(x as int, y as int),
        ensures
            value == bitmap_pixels(*self)[(x as int, y as int)],
    {
        self.inner.get_pixel(x, y).0[0]
    }

    /// `ImageBuffer::put_pixel`, which panics outside the image: the pixel at
    /// `(x, y)` becomes `value`, and nothing else changes.
    #[verifier::external_body]
    pub(crate) fn put_pixel(&mut self, x: u32, y: u32, value: u8)
        requires
            old(self).covers(x as int, y as int),
        ensures
            bitmap_width(*final(self)) == bitmap_width(*old(self)),
            bitmap_height(*final(self)) == bitmap_height(*old(self)),
            bitmap_pixels(*final(self)) == bitmap_pixels(*old(self)).insert((x as int, y as int), value),
    {
        self.inner.put_pixel(x, y, Luma([value]));
    }

    /// Sets the pixel at `(x, y)` to `value`; every other pixel keeps its value.
    pub(crate) fn set(&mut self, x: u32, y: u32, value: u8)
        requires
            old(self).covers(x as int, y as int),
        ensures
            final(self).width_spec() == old(self).width_spec(),
            final(self).height_spec() == old(self).height_spec(),
            final(self).at(x as int, y as int) == value,
            forall|u: int, v: int|
                u != x || v != y ==> #[trigger] final(self).at(u, v) == old(self).at(u, v),
    {
        self.put_pixel(x, y, value);
        assert forall|u: int, v: int| u != x || v != y implies #[trigger] self.at(u, v) == old(
            self,
        ).at(u, v) by {
            assert((u, v) != (x as int, y as int));
        }
    }

    /// The width and height of this bitmap.
    pub fn dimensions(&self) -> (size: (u32, u32))
        ensures
            size.0 == self.width_spec(),
            size.1 == self.height_spec(),
    {
        (self.width(), self.height())
    }

    /// A bitmap of the given size whose rows are read from `pixels`, the first
    /// row first; `None` unless `pixels` holds exactly one value per pixel and
    /// no more than a vector may hold.
    pub fn from_pixels(width: u32, height: u32, pixels: &Vec<u8>) -> (image: Option<Bitmap>)
        ensures
            image is Some <==> pixels.len() == width * height && width * height <= isize::MAX,
            image matches Some(b) ==> b.width_spec() == width && b.height_spec() == height
                && forall|x: int, y: int|
                b.covers(x, y) ==> #[trigger] b.at(x, y) == pixels@[y * width + x],
    {
        proof {
            lemma_area_bound(width as int, height as int);
        }
        let total: u64 = (width as u64) * (height as u64);
        if pixels.len() as u64 != total || total > isize::MAX as u64 {
            return None;
        }
        let mut image = Bitmap::new(width, height);
        for y in 0..height
            invariant
                image.width_spec() == width,
                image.height_spec() == height,
                pixels.len() == width * height,
                forall|u: int, v: int|
                    0 <= u < width && 0 <= v < y ==> #[trigger] image.at(u, v) == pixels@[v * width
                        + u],
        {
            for x in 0..width
                invariant
                    y < height,
                    image.width_spec() == width,
                    image.height_spec() == height,
                    pixels.len() == width * height,
                    forall|u: int, v: int|
                        0 <= u < width && 0 <= v < y ==> #[trigger] image.at(u, v) == pixels@[v
                            * width + u],
                    forall|u: int|
                        0 <= u < x ==> #[trigger] image.at(u, y as int) == pixels@[y * width + u],
            {
                proof {
                    lemma_row_major_bound(x as int, y as int, width as int, height as int);
                }
                let index: u64 = (y as u64) * (width as u64) + (x as u64);
                image.set(x, y, pixels[index as usize]);
            }
        }
        Some(image)
    }

    /// The pixels of this bitmap row by row, the first row first.
    pub fn to_pixels(&self) -> (pixels: Vec<u8>)
        ensures
            pixels.len() == self.width_spec() * self.height_spec(),
            forall|x: int, y: int|
                self.covers(x, y) ==> pixels@[y * self.width_spec() + x] == #[trigger] self.at(x, y),
    {
        let width = self.width();
        let height = self.height();
        let mut pixels: Vec<u8> = Vec::new();
        assert(0 * width == 0) by (nonlinear_arith);
        for y in 0..height
            invariant
                self.width_spec() == width,
                self.height_spec() == height,
                pixels.len() == y * width,
                forall|u: int, v: int|
                    0 <= u < width && 0 <= v < y ==> pixels@[v * width + u] == #[trigger] self.at(
                        u,
                        v,
                    ),
        {
            for x in 0..width
                invariant
                    y < height,
                    self.width_spec() == width,
                    self.height_spec() == height,
                    pixels.len() == y * width + x,
                    forall|u: int, v: int|
                        0 <= u < width && 0 <= v < y ==> pixels@[v * width + u]
                            == #[trigger] self.at(u, v),
                    forall|u: int|
                        0 <= u < x ==> pixels@[y * width + u] == #[trigger] self.at(u, y as int),
            {
                let ghost before = pixels@;
                pixels.push(self.get_pixel(x, y));
                assert forall|u: int, v: int| 0 <= u < width && 0 <= v < y implies pixels@[v
                    * width + u] == #[trigger] self.at(u, v) by {
                    lemma_row_major_bound(u, v, width as int, y as int);
                    assert(before[v * width + u] == self.at(u, v));
                }
                assert forall|u: int| 0 <= u < x + 1 implies pixels@[y * width + u]
                    == #[trigger] self.at(u, y as int) by {
                    if u < x {
                        assert(before[y * width + u] == self.at(u, y as int));
                    }
                }
            }
            assert((y + 1) * width == y * width + width) by (nonlinear_arith);
        }
        assert(height * width == width * height) by (nonlinear_arith);
        pixels
    }

    /// The value at `(x, y)`, or `None` outside the bitmap.
    pub fn get(&self, x: u32, y: u32) -> (value: Option<u8>)
        ensures
            value == (if self.covers(x as int, y as int) {
                Some(self.at(x as int, y as int))
            } else {
                None
            }),
    {
        if x < self.width() && y < self.height() {
            Some(self.get_pixel(x, y))
        } else {
            None
        }
    }
}

/// In a grid of `width` columns and `height` rows, the row-major index of
/// `(x, y)` lies below `width * height`, and below that of every later row.
pub proof fn lemma_row_major_bound(x: int, y: int, width: int, height: int)
    requires
        0 <= x < width,
        0 <= y < height,
    ensures
        0 <= y * width + x < width * height,
        y * width + x < (y + 1) * width <= height * width,
{
    assert(y * width + x < (y + 1) * width) by (nonlinear_arith)
        requires
            0 <= x < width,
    ;
    assert((y + 1) * width <= height * width) by (nonlinear_arith)
        requires
            0 <= y < height,
            0 < width,
    ;
    assert(0 <= y * width) by (nonlinear_arith)
        requires
            0 <= y,
            0 < width,
    ;
    assert(height * width == width * height) by (nonlinear_arith);
}

/// The area of a grid whose sides fit 32 bits fits 64 bits.
pub proof fn lemma_area_bound(width: int, height: int)
    requires
        0 <= width <= u32::MAX,
        0 <= height <= u32::MAX,
    ensures
        0 <= width * height <= 0xFFFF_FFFE_0000_0001,
{
    assert(0 <= width * height <= 0xFFFF_FFFF * 0xFFFF_FFFF) by (nonlinear_arith)
        requires
            0 <= width <= 0xFFFF_FFFF,
            0 <= height <= 0xFFFF_FFFF,
    ;
}

} // verus!
