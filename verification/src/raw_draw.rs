//! A pixel-buffer capability: any width x height entity that owns a flat
//! RGBA8 byte buffer (row-major, four bytes per pixel, no padding) gets
//! derived get/put pixel operations for free.

use vstd::prelude::*;

verus! {

/// One RGBA pixel value: four independent channel bytes.
#[derive(Clone, Copy, PartialEq, Eq, Structural, Debug)]
pub struct RawColor {
    pub r: u8,
    pub g: u8,
    pub b: u8,
    pub a: u8,
}

/// The grayscale-opaque color built by `RawColor::from_single`:
/// all three channels carry the same intensity, alpha is fully opaque.
pub open spec fn gray(val: u8) -> RawColor {
    RawColor { r: val, g: val, b: val, a: 255 }
}

impl RawColor {
    pub fn from_rgba(r: u8, g: u8, b: u8, a: u8) -> (c: Self)
        ensures
            c == (RawColor { r, g, b, a }),
    {
        Self { r, g, b, a }
    }

    pub fn from_single(val: u8) -> (c: Self)
        ensures
            c == gray(val),
    {
        Self { r: val, g: val, b: val, a: 255 }
    }
}

/// Byte offset of pixel (x, y) inside a row-major RGBA8 buffer of width `w`.
pub open spec fn pix_off(w: int, x: int, y: int) -> int {
    4 * (x + y * w)
}

/// The buffer `buf` with the four bytes of pixel (x, y) repainted with the
/// channels of `c`.
pub open spec fn painted(buf: Seq<u8>, w: int, x: int, y: int, c: RawColor) -> Seq<u8> {
    buf.update(pix_off(w, x, y), c.r).update(pix_off(w, x, y) + 1, c.g).update(
        pix_off(w, x, y) + 2,
        c.b,
    ).update(pix_off(w, x, y) + 3, c.a)
}

/// The four bytes of pixel (x, y) lie inside a buffer of `4 * w * h` bytes.
pub proof fn lemma_pix_off_bounds(w: int, h: int, x: int, y: int)
    by (nonlinear_arith)
    requires
        0 <= x < w,
        0 <= y < h,
    ensures
        0 <= 4 * (x + y * w),
        4 * (x + y * w) + 3 < 4 * w * h,
{
}

/// Byte quartets of distinct pixels do not overlap: if two in-range pixel
/// offsets address a common byte, they are the same pixel.
pub proof fn lemma_pix_off_injective(w: int, x1: int, y1: int, x2: int, y2: int)
    by (nonlinear_arith)
    requires
        0 <= x1 < w,
        0 <= x2 < w,
    ensures
        (x1 + y1 * w == x2 + y2 * w) <==> (x1 == x2 && y1 == y2),
{
}

/// Computes the byte offset of pixel (x, y) as a `usize`.
pub(crate) fn pixel_offset(w: u32, x: u32, y: u32) -> (i: usize)
    requires
        4 * ((x as int) + (y as int) * (w as int)) + 3 <= usize::MAX,
        0 <= (x as int) + (y as int) * (w as int),
    ensures
        i == pix_off(w as int, x as int, y as int),
{
    4 * ((x as usize) + (y as usize) * (w as usize))
}

/// An entity that exposes its size and its raw RGBA8 byte buffer.
///
/// Implementers provide the four accessors; the derived pixel operations
/// `get_buf` and `put_buf` come with the trait. The buffer layout (row-major,
/// RGBA order, 4 bytes per pixel, no padding) is part of the contract: the
/// buffer is handed unchanged to whatever blits it onto a display surface.
pub trait RawDraw: Sized {
    /// Width in pixels.
    spec fn spec_width(&self) -> u32;

    /// Height in pixels.
    spec fn spec_height(&self) -> u32;

    /// The raw byte buffer, `4 * width * height` bytes when well-formed.
    spec fn spec_buf(&self) -> Seq<u8>;

    fn width(&self) -> (w: u32)
        ensures
            w == self.spec_width(),
    ;

    fn height(&self) -> (h: u32)
        ensures
            h == self.spec_height(),
    ;

    fn buf(&self) -> (b: &Vec<u8>)
        ensures
            b@ == self.spec_buf(),
    ;

    fn buf_mut(&mut self) -> (b: &mut Vec<u8>)
        ensures
            b@ == old(self).spec_buf(),
            final(self).spec_buf() == final(b)@,
            final(self).spec_width() == old(self).spec_width(),
            final(self).spec_height() == old(self).spec_height(),
    ;

    /// Reads the four bytes of pixel (x, y).
    fn get_buf(&self, x: u32, y: u32) -> (c: RawColor)
        requires
            x < self.spec_width(),
            y < self.spec_height(),
            self.spec_buf().len() == 4 * (self.spec_width() as int) * (self.spec_height() as int),
        ensures
            c.r == self.spec_buf()[pix_off(self.spec_width() as int, x as int, y as int)],
            c.g == self.spec_buf()[pix_off(self.spec_width() as int, x as int, y as int) + 1],
            c.b == self.spec_buf()[pix_off(self.spec_width() as int, x as int, y as int) + 2],
            c.a == self.spec_buf()[pix_off(self.spec_width() as int, x as int, y as int) + 3],
    {
        let buf = self.buf();
        // A Vec's length is a usize, so the byte offsets computed below fit.
        let _n = buf.len();
        proof {
            lemma_pix_off_bounds(
                self.spec_width() as int,
                self.spec_height() as int,
                x as int,
                y as int,
            );
        }
        let i = pixel_offset(self.width(), x, y);
        RawColor::from_rgba(buf[i], buf[i + 1], buf[i + 2], buf[i + 3])
    }

    /// Writes the four bytes of pixel (x, y).
    fn put_buf(&mut self, x: u32, y: u32, color: RawColor)
        requires
            x < old(self).spec_width(),
            y < old(self).spec_height(),
            old(self).spec_buf().len() == 4 * (old(self).spec_width() as int) * (old(
                self,
            ).spec_height() as int),
        ensures
            final(self).spec_width() == old(self).spec_width(),
            final(self).spec_height() == old(self).spec_height(),
            final(self).spec_buf() == painted(
                old(self).spec_buf(),
                old(self).spec_width() as int,
                x as int,
                y as int,
                color,
            ),
    {
        let w = self.width();
        let buf = self.buf_mut();
        // A Vec's length is a usize, so the byte offsets computed below fit.
        let _n = buf.len();
        proof {
            lemma_pix_off_bounds(
                old(self).spec_width() as int,
                old(self).spec_height() as int,
                x as int,
                y as int,
            );
        }
        let i = pixel_offset(w, x, y);
        buf.set(i, color.r);
        buf.set(i + 1, color.g);
        buf.set(i + 2, color.b);
        buf.set(i + 3, color.a);
    }
}

} // verus!
