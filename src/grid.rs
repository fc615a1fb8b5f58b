use vstd::prelude::*;
use crate::palette::Rgb;

verus! {

/// A row-major RGBA image, four bytes per pixel.
pub struct RgbaGrid {
    pub width: usize,
    pub height: usize,
    pub data: Vec<u8>,
}

/// A row-major RGB image, three bytes per pixel.
pub struct RgbGrid {
    pub width: usize,
    pub height: usize,
    pub data: Vec<u8>,
}

/// The colour of pixel `p` of an RGBA byte sequence (alpha left out).
pub open spec fn rgba_at(d: Seq<u8>, p: int) -> Rgb {
    Rgb { r: d[4 * p], g: d[4 * p + 1], b: d[4 * p + 2] }
}

/// The alpha byte of pixel `p` of an RGBA byte sequence.
pub open spec fn alpha_at(d: Seq<u8>, p: int) -> u8 {
    d[4 * p + 3]
}

/// The colour of pixel `p` of an RGB byte sequence.
pub open spec fn rgb_at(d: Seq<u8>, p: int) -> Rgb {
    Rgb { r: d[3 * p], g: d[3 * p + 1], b: d[3 * p + 2] }
}

impl RgbaGrid {
    pub open spec fn wf(&self) -> bool {
        self.data@.len() == self.width * self.height * 4
    }

    /// Wraps a flat RGBA buffer; `None` when its length is not `width * height * 4`.
    pub fn from_raw(width: usize, height: usize, data: Vec<u8>) -> (r: Option<RgbaGrid>)
        ensures
            r is Some <==> data@.len() == width * height * 4,
            r matches Some(g) ==> g.wf() && g.width == width && g.height == height && g.data@
                == data@,
    {
        let len = data.len();
        let fits = match width.checked_mul(height) {
            Some(a) => match a.checked_mul(4) {
                Some(n) => n == len,
                None => false,
            },
            None => false,
        };
        proof {
            if data@.len() == width * height * 4 {
                assert(width * height * 4 <= usize::MAX);
                assert(width * height <= width * height * 4);
            }
        }
        if fits {
            Some(RgbaGrid { width, height, data })
        } else {
            None
        }
    }

    /// The flat RGBA buffer.
    pub fn into_raw(self) -> (r: Vec<u8>)
        ensures
            r@ == self.data@,
    {
        self.data
    }

    pub fn width(&self) -> (r: usize)
        ensures
            r == self.width,
    {
        self.width
    }

    pub fn height(&self) -> (r: usize)
        ensures
            r == self.height,
    {
        self.height
    }

    /// The four bytes of the pixel at column `x`, row `y`.
    pub fn pixel(&self, x: usize, y: usize) -> (r: [u8; 4])
        requires
            self.wf(),
            x < self.width,
            y < self.height,
        ensures
            r@ == self.data@.subrange(
                (y * self.width + x) * 4,
                (y * self.width + x) * 4 + 4,
            ),
    {
        let _len = self.data.len();
        let pos = pixel_offset(x, y, self.width, self.height, 4);
        let r = [self.data[pos], self.data[pos + 1], self.data[pos + 2], self.data[pos + 3]];
        assert(r@ =~= self.data@.subrange(pos as int, pos + 4));
        r
    }
}

impl RgbGrid {
    pub open spec fn wf(&self) -> bool {
        self.data@.len() == self.width * self.height * 3
    }

    /// The flat RGB buffer.
    pub fn into_raw(self) -> (r: Vec<u8>)
        ensures
            r@ == self.data@,
    {
        self.data
    }

    pub fn width(&self) -> (r: usize)
        ensures
            r == self.width,
    {
        self.width
    }

    pub fn height(&self) -> (r: usize)
        ensures
            r == self.height,
    {
        self.height
    }

    /// The colour of the pixel at column `x`, row `y`.
    pub fn pixel(&self, x: usize, y: usize) -> (r: Rgb)
        requires
            self.wf(),
            x < self.width,
            y < self.height,
        ensures
            r == rgb_at(self.data@, y * self.width + x),
    {
        let _len = self.data.len();
        let pos = pixel_offset(x, y, self.width, self.height, 3);
        Rgb { r: self.data[pos], g: self.data[pos + 1], b: self.data[pos + 2] }
    }
}

/// Byte offset of the pixel at column `x`, row `y` of a `w`-wide image with
/// `n` bytes per pixel.
pub fn pixel_offset(x: usize, y: usize, w: usize, h: usize, n: usize) -> (r: usize)
    requires
        x < w,
        y < h,
        1 <= n,
        w * h * n <= usize::MAX,
    ensures
        r == (y * w + x) * n,
        r + n <= w * h * n,
{
    proof {
        lemma_offset_fits(x as int, y as int, w as int, h as int, n as int);
    }
    (y * w + x) * n
}

pub proof fn lemma_offset_fits(x: int, y: int, w: int, h: int, n: int)
    requires
        0 <= x < w,
        0 <= y < h,
        1 <= n,
    ensures
        0 <= y * w + x < w * h,
        w * h <= w * h * n,
        0 <= (y * w + x) * n,
        (y * w + x) * n + n <= w * h * n,
{
    assert(y * w + x < w * h) by (nonlinear_arith)
        requires
            0 <= x < w,
            0 <= y < h,
    ;
    assert(0 <= y * w) by (nonlinear_arith)
        requires
            0 <= y,
            0 <= w,
    ;
    assert((y * w + x) * n + n <= w * h * n) by (nonlinear_arith)
        requires
            y * w + x + 1 <= w * h,
            0 <= n,
    ;
    assert(w * h <= w * h * n) by (nonlinear_arith)
        requires
            0 <= w * h,
            1 <= n,
    ;
    assert(0 <= (y * w + x) * n) by (nonlinear_arith)
        requires
            0 <= y * w + x,
            0 <= n,
    ;
}

} // verus!
