//! The pixel grid that the codec reads and writes, kept in an
//! `image::RgbImage`.
//!
//! Verus does not look inside the `image` crate. The functions whose names
//! start with `raster_` are not proved: each states what one function of that
//! crate does. The methods of [`Raster`] are proved from them.

use vstd::prelude::*;

verus! {

/// An 8-bit RGB image held in an `image::RgbImage`.
///
/// [`raster_buffer`] and [`raster_extent`] name what the image holds; its
/// view puts the two together.
#[verifier::external_body]
pub struct Raster {
    inner: image::RgbImage,
}

/// The raw sample buffer of the image: the channel values of its pixels in
/// row-major order, three per pixel (red, green, blue), followed by whatever
/// else the buffer was created with.
pub uninterp spec fn raster_buffer(img: Raster) -> Seq<u8>;

/// The width and the height of the image, in pixels.
pub uninterp spec fn raster_extent(img: Raster) -> (nat, nat);

/// What an image is to the codec: its width, its height and its sample
/// buffer.
#[verifier::ext_equal]
pub struct RasterView {
    pub width: nat,
    pub height: nat,
    pub buffer: Seq<u8>,
}

impl RasterView {
    /// The number of pixels.
    pub open spec fn pixel_count(self) -> nat {
        self.width * self.height
    }

    /// The buffer holds three samples for each pixel.
    pub open spec fn well_formed(self) -> bool {
        3 * self.pixel_count() <= self.buffer.len()
    }

    /// The samples of the pixels in row-major order, three per pixel: the
    /// buffer without what lies beyond the last pixel.
    pub open spec fn samples(self) -> Seq<u8> {
        self.buffer.take(3 * self.pixel_count() as int)
    }
}

impl View for Raster {
    type V = RasterView;

    open spec fn view(&self) -> RasterView {
        RasterView {
            width: raster_extent(*self).0,
            height: raster_extent(*self).1,
            buffer: raster_buffer(*self),
        }
    }
}

/// `ImageBuffer::from_raw`: accepts the buffer if and only if it holds at
/// least three samples for each of `width * height` pixels, and then keeps
/// it as it is.
#[verifier::external_body]
pub(crate) fn raster_from_raw(width: u32, height: u32, data: Vec<u8>) -> (made: Option<Raster>)
    ensures
        made is Some <==> 3 * width * height <= data@.len(),
        made matches Some(img) ==> raster_extent(img) == (width as nat, height as nat)
            && raster_buffer(img) == data@,
{
    match image::RgbImage::from_raw(width, height, data) {
        Some(inner) => Some(Raster { inner }),
        None => None,
    }
}

/// `ImageBuffer::new`: an image of the given size whose samples are all
/// zero, in a buffer of exactly three samples per pixel. It panics where the
/// buffer would be larger than a vector can be, which `requires` excludes.
#[verifier::external_body]
pub(crate) fn raster_new(width: u32, height: u32) -> (img: Raster)
    requires
        3 * width * height <= isize::MAX,
    ensures
        raster_extent(img) == (width as nat, height as nat),
        raster_buffer(img) == Seq::new((3 * width * height) as nat, |i: int| 0u8),
{
    Raster { inner: image::RgbImage::new(width, height) }
}

/// `ImageBuffer::dimensions`: the width and the height. Every constructor of
/// `ImageBuffer` checks that the buffer holds three samples for each pixel,
/// and no vector is longer than `isize::MAX`.
#[verifier::external_body]
pub(crate) fn raster_dimensions(img: &Raster) -> (dims: (u32, u32))
    ensures
        (dims.0 as nat, dims.1 as nat) == raster_extent(*img),
        3 * dims.0 * dims.1 <= raster_buffer(*img).len() <= isize::MAX,
{
    img.inner.dimensions()
}

/// `ImageBuffer::get_pixel`: the three samples of the pixel in column `x` of
/// row `y`, which lie in the buffer from `3 * (y * width + x)` on. It panics
/// outside the image, which `requires` excludes.
#[verifier::external_body]
pub(crate) fn raster_get_pixel(img: &Raster, x: u32, y: u32) -> (pixel: [u8; 3])
    requires
        x < raster_extent(*img).0,
        y < raster_extent(*img).1,
    ensures
        pixel@ == raster_buffer(*img).subrange(
            3 * (y * raster_extent(*img).0 + x),
            3 * (y * raster_extent(*img).0 + x) + 3,
        ),
{
    img.inner.get_pixel(x, y).0
}

/// `ImageBuffer::put_pixel`: overwrites the three samples of the pixel in
/// column `x` of row `y`, which lie in the buffer from
/// `3 * (y * width + x)` on, and nothing else. It panics outside the image,
/// which `requires` excludes.
#[verifier::external_body]
pub(crate) fn raster_put_pixel(img: &mut Raster, x: u32, y: u32, pixel: [u8; 3])
    requires
        x < raster_extent(*old(img)).0,
        y < raster_extent(*old(img)).1,
    ensures
        raster_extent(*final(img)) == raster_extent(*old(img)),
        raster_buffer(*final(img)) == raster_buffer(*old(img)).update(
            3 * (y * raster_extent(*old(img)).0 + x),
            pixel@[0],
        ).update(3 * (y * raster_extent(*old(img)).0 + x) + 1, pixel@[1]).update(
            3 * (y * raster_extent(*old(img)).0 + x) + 2,
            pixel@[2],
        ),
{
    img.inner.put_pixel(x, y, image::Rgb(pixel));
}

/// `ImageBuffer::into_raw`: hands out the sample buffer.
#[verifier::external_body]
pub(crate) fn raster_into_raw(img: Raster) -> (data: Vec<u8>)
    ensures
        data@ == raster_buffer(img),
{
    img.inner.into_raw()
}

impl Raster {
    /// Makes an image of `width` by `height` pixels from its samples in
    /// row-major order, three per pixel. There is no image if the buffer is
    /// too short for that many pixels.
    pub fn from_raw(width: u32, height: u32, data: Vec<u8>) -> (made: Option<Raster>)
        ensures
            made is Some <==> 3 * width * height <= data@.len(),
            made matches Some(img) ==> img@ == (RasterView {
                width: width as nat,
                height: height as nat,
                buffer: data@,
            }),
    {
        raster_from_raw(width, height, data)
    }

    /// The width and the height of the image, in pixels.
    pub fn dimensions(&self) -> (dims: (u32, u32))
        ensures
            dims.0 == self@.width,
            dims.1 == self@.height,
            self@.well_formed(),
            self@.buffer.len() <= isize::MAX,
    {
        let dims = raster_dimensions(self);
        assert(3 * (dims.0 * dims.1) == 3 * dims.0 * dims.1) by (nonlinear_arith);
        dims
    }

    /// The samples of the pixel with row-major index `index`.
    pub(crate) fn pixel(&self, index: u64) -> (pixel: [u8; 3])
        requires
            index < self@.pixel_count(),
        ensures
            self@.well_formed(),
            pixel@ == self@.samples().subrange(3 * index, 3 * index + 3),
    {
        let (width, height) = self.dimensions();
        let (x, y) = position(index, width, height);
        raster_get_pixel(self, x, y)
    }

    /// Overwrites the samples of the pixel with row-major index `index` and
    /// leaves every other sample as it is.
    pub(crate) fn set_pixel(&mut self, index: u64, pixel: [u8; 3])
        requires
            index < old(self)@.pixel_count(),
        ensures
            final(self)@.width == old(self)@.width,
            final(self)@.height == old(self)@.height,
            final(self)@.buffer == old(self)@.buffer.update(3 * index, pixel@[0]).update(
                3 * index + 1,
                pixel@[1],
            ).update(3 * index + 2, pixel@[2]),
    {
        let (width, height) = self.dimensions();
        let (x, y) = position(index, width, height);
        raster_put_pixel(self, x, y, pixel);
    }

    /// Gives up the image for its sample buffer.
    pub fn into_raw(self) -> (data: Vec<u8>)
        ensures
            data@ == self@.buffer,
    {
        raster_into_raw(self)
    }
}

/// The column and the row of the pixel with row-major index `index` in an
/// image of the given width.
pub(crate) fn position(index: u64, width: u32, height: u32) -> (at: (u32, u32))
    requires
        index < width * height,
    ensures
        at.0 < width,
        at.1 < height,
        at.1 * width + at.0 == index,
{
    assert(width > 0) by (nonlinear_arith)
        requires
            index < width * height,
    ;
    let row: u64 = index / (width as u64);
    let column: u64 = index % (width as u64);
    assert(row < height && row * width + column == index) by (nonlinear_arith)
        requires
            index < width * height,
            width > 0,
            row == index / (width as u64),
            column == index % (width as u64),
    ;
    (column as u32, row as u32)
}

} // verus!
