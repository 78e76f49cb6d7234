//! RGBA rasters: a rectangular grid of pixels stored row-major, four bytes
//! per pixel (red, green, blue, alpha), with no padding between rows.

use vstd::prelude::*;
use vstd::arithmetic::div_mod::{
    lemma_fundamental_div_mod, lemma_fundamental_div_mod_converse,
};

verus! {

/// Byte index of channel `c` of the pixel at `(x, y)` in a raster of width `w`.
pub open spec fn pixel_byte(w: int, x: int, y: int, c: int) -> int {
    4 * (y * w + x) + c
}

/// The x coordinate of the pixel that byte `i` belongs to, in a raster of width `w`.
pub open spec fn byte_pixel_x(i: int, w: int) -> int {
    (i / 4) % w
}

/// The y coordinate of the pixel that byte `i` belongs to, in a raster of width `w`.
pub open spec fn byte_pixel_y(i: int, w: int) -> int {
    (i / 4) / w
}

/// The channel (0 red, 1 green, 2 blue, 3 alpha) that byte `i` addresses.
pub open spec fn byte_channel(i: int) -> int {
    i % 4
}

/// `pixel_byte` and the coordinate projections invert each other.
pub proof fn lemma_byte_coords(w: int, x: int, y: int, c: int)
    requires
        0 < w,
        0 <= x < w,
        0 <= y,
        0 <= c < 4,
    ensures
        byte_pixel_x(pixel_byte(w, x, y, c), w) == x,
        byte_pixel_y(pixel_byte(w, x, y, c), w) == y,
        byte_channel(pixel_byte(w, x, y, c)) == c,
{
    let p = y * w + x;
    let i = 4 * p + c;
    assert(y * w + x >= 0) by (nonlinear_arith)
        requires
            0 <= x,
            0 <= y,
            0 < w,
    ;
    lemma_fundamental_div_mod_converse(i, 4, p, c);
    assert(i / 4 == p);
    lemma_fundamental_div_mod_converse(p, w, y, x);
}

/// Every byte of a raster decomposes into pixel coordinates and a channel.
pub proof fn lemma_coords_of_byte(w: int, h: int, i: int)
    requires
        0 < w,
        0 <= i < 4 * w * h,
    ensures
        0 <= byte_channel(i) < 4,
        0 <= byte_pixel_x(i, w) < w,
        0 <= byte_pixel_y(i, w) < h,
        i == pixel_byte(w, byte_pixel_x(i, w), byte_pixel_y(i, w), byte_channel(i)),
{
    lemma_fundamental_div_mod(i, 4);
    let p = i / 4;
    lemma_fundamental_div_mod(p, w);
    assert(0 <= i % 4 < 4);
    assert(0 <= p % w < w);
    assert(p >= 0);
    assert(p / w >= 0) by (nonlinear_arith)
        requires
            p >= 0,
            0 < w,
    ;
    assert(p < w * h) by (nonlinear_arith)
        requires
            4 * p <= i,
            i < 4 * w * h,
    ;
    assert(p / w < h) by (nonlinear_arith)
        requires
            p < w * h,
            0 < w,
            p == w * (p / w) + (p % w),
            0 <= p % w,
    ;
}

/// A pixel's bytes lie inside the raster's buffer.
pub proof fn lemma_pixel_byte_in_range(w: int, h: int, x: int, y: int, c: int)
    requires
        0 <= x < w,
        0 <= y < h,
        0 <= c < 4,
    ensures
        0 <= pixel_byte(w, x, y, c) < 4 * w * h,
{
    assert(0 <= 4 * (y * w + x) + c < 4 * w * h) by (nonlinear_arith)
        requires
            0 <= x < w,
            0 <= y < h,
            0 <= c < 4,
    ;
}

/// An RGBA raster: `width * height` pixels, stored row-major, four bytes each.
pub struct Raster {
    pub width: u32,
    pub height: u32,
    pub data: Vec<u8>,
}

impl Raster {
    /// The buffer holds exactly four bytes per pixel.
    pub open spec fn wf(&self) -> bool {
        self.data@.len() == 4 * (self.width as int) * (self.height as int)
    }

    /// Channel `c` of the pixel at `(x, y)`, as a spec-level integer.
    pub open spec fn spec_channel(&self, x: int, y: int, c: int) -> u8 {
        self.data@[pixel_byte(self.width as int, x, y, c)]
    }

    /// A raster filled with a single RGBA color.
    pub fn solid(width: u32, height: u32, red: u8, green: u8, blue: u8, alpha: u8) -> (r: Raster)
        requires
            4 * (width as int) * (height as int) <= usize::MAX as int,
        ensures
            r.wf(),
            r.width == width,
            r.height == height,
            forall|i: int|
                0 <= i < r.data@.len() ==> r.data@[i] == (if i % 4 == 0 {
                    red
                } else if i % 4 == 1 {
                    green
                } else if i % 4 == 2 {
                    blue
                } else {
                    alpha
                }),
    {
        proof {
            assert(0 <= (width as int) * (height as int) <= 4 * (width as int) * (height as int))
                by (nonlinear_arith);
            assert(4 * ((width as int) * (height as int)) == 4 * (width as int) * (height as int))
                by (nonlinear_arith);
        }
        let pixels: usize = (width as usize) * (height as usize);
        let mut data: Vec<u8> = Vec::new();
        let mut p: usize = 0;
        while p < pixels
            invariant
                p <= pixels,
                data@.len() == 4 * p,
                4 * pixels <= usize::MAX,
                forall|i: int|
                    0 <= i < data@.len() ==> data@[i] == (if i % 4 == 0 {
                        red
                    } else if i % 4 == 1 {
                        green
                    } else if i % 4 == 2 {
                        blue
                    } else {
                        alpha
                    }),
            decreases pixels - p,
        {
            data.push(red);
            data.push(green);
            data.push(blue);
            data.push(alpha);
            proof {
                let n = 4 * p as int;
                assert forall|i: int| n <= i < n + 4 implies #[trigger] (i % 4) == i - n by {
                    lemma_fundamental_div_mod_converse(i, 4, p as int, i - n);
                }
            }
            p = p + 1;
        }
        proof {
            assert(4 * (width as int) * (height as int) == 4 * ((width as int) * (height as int)))
                by (nonlinear_arith);
        }
        Raster { width, height, data }
    }

    /// The RGBA channels of the pixel at `(x, y)`.
    pub fn get_pixel(&self, x: u32, y: u32) -> (r: (u8, u8, u8, u8))
        requires
            self.wf(),
            x < self.width,
            y < self.height,
        ensures
            r.0 == self.spec_channel(x as int, y as int, 0),
            r.1 == self.spec_channel(x as int, y as int, 1),
            r.2 == self.spec_channel(x as int, y as int, 2),
            r.3 == self.spec_channel(x as int, y as int, 3),
    {
        proof {
            lemma_pixel_byte_in_range(
                self.width as int,
                self.height as int,
                x as int,
                y as int,
                0,
            );
            lemma_pixel_byte_in_range(
                self.width as int,
                self.height as int,
                x as int,
                y as int,
                3,
            );
            assert(self.data.len() <= usize::MAX);
            let q = (y as int) * (self.width as int) + (x as int);
            assert(0 <= q && 4 * q + 3 < self.data@.len());
        }
        let i: usize = 4 * ((y as usize) * (self.width as usize) + (x as usize));
        (self.data[i], self.data[i + 1], self.data[i + 2], self.data[i + 3])
    }
}

} // verus!
