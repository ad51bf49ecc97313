use vstd::prelude::*;
use image::{ImageBuffer, Luma};

verus! {

/// An 8-bit single-channel image. The pixels live in a gray
/// `image::ImageBuffer`, which this struct keeps to itself.
#[verifier::external_body]
pub struct Raster {
    buffer: ImageBuffer<Luma<u8>, Vec<u8>>,
}

/// Width and height of the buffer, as `ImageBuffer::dimensions` reports them.
pub uninterp spec fn raster_dims(r: &Raster) -> (u32, u32);

/// The intensities that the buffer holds, in the order in which
/// `ImageBuffer::pixels` walks them: row by row from the top, each row from
/// the left.
pub uninterp spec fn raster_pixels(r: &Raster) -> Seq<u8>;

/// The mathematical content of a raster.
pub struct Grid {
    pub width: nat,
    pub height: nat,
    pub pixels: Seq<u8>,
}

impl Grid {
    /// There is exactly one intensity per position.
    pub open spec fn wf(self) -> bool {
        self.pixels.len() == self.width * self.height
    }

    pub open spec fn contains(self, x: int, y: int) -> bool {
        0 <= x < self.width && 0 <= y < self.height
    }

    /// Place of the pixel `(x, y)` in `pixels`.
    pub open spec fn index(self, x: int, y: int) -> int {
        y * self.width + x
    }

    /// Intensity at column `x` of row `y`.
    pub open spec fn at(self, x: int, y: int) -> u8 {
        self.pixels[self.index(x, y)]
    }
}

impl View for Raster {
    type V = Grid;

    open spec fn view(&self) -> Grid {
        Grid {
            width: raster_dims(self).0 as nat,
            height: raster_dims(self).1 as nat,
            pixels: raster_pixels(self),
        }
    }
}

/// `ImageBuffer::dimensions`: the pair of width and height. The buffer
/// yields one pixel per position, so the pixel sequence has their product as
/// its length.
#[verifier::external_body]
fn buffer_dimensions(img: &Raster) -> (d: (u32, u32))
    ensures
        d == raster_dims(img),
        raster_pixels(img).len() == d.0 * d.1,
{
    img.buffer.dimensions()
}

/// `ImageBuffer::get_pixel`, which panics outside the bounds: inside them it
/// hands out the pixel at column `x` of row `y`.
#[verifier::external_body]
fn buffer_get_pixel(img: &Raster, x: u32, y: u32) -> (v: u8)
    requires
        x < raster_dims(img).0,
        y < raster_dims(img).1,
    ensures
        v == raster_pixels(img)[y * raster_dims(img).0 + x],
{
    img.buffer.get_pixel(x, y).0[0]
}

/// `ImageBuffer::put_pixel`, which panics outside the bounds: inside them it
/// overwrites the pixel at column `x` of row `y` and nothing else.
#[verifier::external_body]
fn buffer_put_pixel(img: &mut Raster, x: u32, y: u32, v: u8)
    requires
        x < raster_dims(old(img)).0,
        y < raster_dims(old(img)).1,
    ensures
        raster_dims(final(img)) == raster_dims(old(img)),
        raster_pixels(final(img)) == raster_pixels(old(img)).update(
            y * raster_dims(old(img)).0 + x,
            v,
        ),
{
    img.buffer.put_pixel(x, y, Luma([v]));
}

/// `ImageBuffer::clone`: a buffer of the same dimensions and pixels.
#[verifier::external_body]
fn buffer_clone(img: &Raster) -> (copy: Raster)
    ensures
        raster_dims(&copy) == raster_dims(img),
        raster_pixels(&copy) == raster_pixels(img),
{
    Raster { buffer: img.buffer.clone() }
}

/// `ImageBuffer::from_raw`: a buffer over `data` when `data` holds at least
/// `width * height` bytes, and `None` when it is shorter. The image is made of
/// the first `width * height` bytes.
#[verifier::external_body]
fn buffer_from_raw(width: u32, height: u32, data: Vec<u8>) -> (made: Option<Raster>)
    ensures
        made.is_some() <==> width * height <= data@.len(),
        made matches Some(img) ==> raster_dims(&img) == (width, height)
            && raster_pixels(&img) == data@.subrange(0, width * height),
{
    match ImageBuffer::from_raw(width, height, data) {
        Some(buffer) => Some(Raster { buffer }),
        None => None,
    }
}

impl Clone for Raster {
    fn clone(&self) -> (copy: Raster)
        ensures
            copy@ == self@,
    {
        buffer_clone(self)
    }
}

impl Raster {
    /// Builds the raster of the given dimensions whose pixels are `data`, row
    /// by row. There is none unless `data` has one byte per pixel.
    pub fn from_pixels(width: u32, height: u32, data: Vec<u8>) -> (made: Option<Raster>)
        ensures
            made.is_some() <==> data@.len() == width * height,
            made matches Some(img) ==> img@ == (Grid {
                width: width as nat,
                height: height as nat,
                pixels: data@,
            }),
    {
        let wanted: u64 = area(width, height);
        if data.len() as u64 != wanted {
            return None;
        }
        let ghost pixels = data@;
        let made = buffer_from_raw(width, height, data);
        proof {
            assert(pixels.subrange(0, pixels.len() as int) =~= pixels);
        }
        made
    }

    pub fn width(&self) -> (w: u32)
        ensures
            w == self@.width,
            self@.wf(),
    {
        buffer_dimensions(self).0
    }

    pub fn height(&self) -> (h: u32)
        ensures
            h == self@.height,
            self@.wf(),
    {
        buffer_dimensions(self).1
    }

    /// The intensity at column `x` of row `y` of a raster that has that pixel.
    pub fn pixel_at(&self, x: u32, y: u32) -> (v: u8)
        requires
            self@.contains(x as int, y as int),
        ensures
            v == self@.at(x as int, y as int),
    {
        buffer_get_pixel(self, x, y)
    }

    /// The intensity at column `x` of row `y`, if the raster has that pixel.
    pub fn get(&self, x: u32, y: u32) -> (v: Option<u8>)
        ensures
            self@.wf(),
            v == (if self@.contains(x as int, y as int) {
                Some(self@.at(x as int, y as int))
            } else {
                None
            }),
    {
        let (w, h) = buffer_dimensions(self);
        if x < w && y < h {
            Some(buffer_get_pixel(self, x, y))
        } else {
            None
        }
    }

    /// Overwrites the pixel at column `x` of row `y`. Outside the raster
    /// nothing is written and the answer is `false`.
    pub fn set(&mut self, x: u32, y: u32, v: u8) -> (written: bool)
        ensures
            written == old(self)@.contains(x as int, y as int),
            final(self)@.wf(),
            final(self)@.width == old(self)@.width,
            final(self)@.height == old(self)@.height,
            final(self)@.pixels == (if written {
                old(self)@.pixels.update(old(self)@.index(x as int, y as int), v)
            } else {
                old(self)@.pixels
            }),
    {
        let (w, h) = buffer_dimensions(self);
        assert(old(self)@.wf());
        if x < w && y < h {
            proof {
                lemma_index_in_range(old(self)@, x as int, y as int);
            }
            buffer_put_pixel(self, x, y, v);
            true
        } else {
            false
        }
    }

    /// A copy of the pixels, row by row.
    pub fn to_pixels(&self) -> (data: Vec<u8>)
        ensures
            self@.wf(),
            data@ == self@.pixels,
    {
        let (w, h) = buffer_dimensions(self);
        let mut data: Vec<u8> = Vec::new();
        let mut y: u32 = 0;
        while y < h
            invariant
                y <= h,
                (w, h) == raster_dims(self),
                self@.wf(),
                0 <= y * w <= self@.pixels.len(),
                data@ == self@.pixels.subrange(0, y * w),
            decreases h - y,
        {
            let mut x: u32 = 0;
            while x < w
                invariant
                    x <= w,
                    y < h,
                    (w, h) == raster_dims(self),
                    self@.wf(),
                    0 <= y * w + x <= self@.pixels.len(),
                    data@ == self@.pixels.subrange(0, y * w + x),
                decreases w - x,
            {
                proof {
                    lemma_index_in_range(self@, x as int, y as int);
                }
                let v = buffer_get_pixel(self, x, y);
                data.push(v);
                assert(data@ =~= self@.pixels.subrange(0, y * w + x + 1));
                x += 1;
            }
            assert((y + 1) * w == y * w + w) by (nonlinear_arith);
            y += 1;
        }
        assert(h * w == w * h) by (nonlinear_arith);
        assert(data@ =~= self@.pixels);
        data
    }
}

/// The number of pixels of a `width` by `height` raster.
pub fn area(width: u32, height: u32) -> (a: u64)
    ensures
        a == width * height,
{
    assert(width * height <= 0xFFFF_FFFF * 0xFFFF_FFFF) by (nonlinear_arith)
        requires
            width <= 0xFFFF_FFFF,
            height <= 0xFFFF_FFFF,
    ;
    (width as u64) * (height as u64)
}

/// A position inside the grid has its place inside the pixel sequence.
pub proof fn lemma_index_in_range(g: Grid, x: int, y: int)
    requires
        g.wf(),
        g.contains(x, y),
    ensures
        0 <= g.index(x, y) < g.pixels.len(),
        g.index(x, y) < g.width * g.height,
{
    assert(y * g.width + x < g.width * g.height) by (nonlinear_arith)
        requires
            0 <= x < g.width,
            0 <= y < g.height,
    ;
    assert(0 <= y * g.width) by (nonlinear_arith)
        requires
            0 <= y,
            0 <= g.width,
    ;
}

} // verus!
