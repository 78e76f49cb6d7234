//! The compositing engine: target-size computation, resampling, opacity
//! fading, corner placement and in-place alpha blending.
//!
//! Every pixel transform is specified over the raster's byte sequence.
//! Division-with-rounding is round-half-up on non-negative rationals,
//! written `round_div`.

use vstd::arithmetic::div_mod::{
    lemma_fundamental_div_mod, lemma_fundamental_div_mod_converse,
};
use vstd::math::{max, min};
use vstd::prelude::*;

use crate::params::{params_valid, CompositeOptions, Position};
use crate::raster::{
    byte_channel, byte_pixel_x, byte_pixel_y, lemma_byte_coords, lemma_coords_of_byte,
    lemma_pixel_byte_in_range, pixel_byte, Raster,
};

verus! {

/// The engine's error conditions, detected before any pixel work begins.
#[derive(Clone, Copy, Debug, PartialEq, Eq, Structural)]
pub enum CompositeError {
    /// The opacity lies outside [0, 1] or the logo-size fraction outside (0, 1].
    InvalidParameter,
    /// The base or the logo has zero width or height.
    EmptyRaster,
}

/// `n / d` rounded to the nearest integer, halves up, for `n >= 0, d > 0`.
pub open spec fn round_div(n: int, d: int) -> int
    recommends
        n >= 0,
        d > 0,
{
    (2 * n + d) / (2 * d)
}

/// An alpha byte faded by an opacity given in thousandths.
pub open spec fn scaled_alpha(a: int, opacity: int) -> int {
    round_div(a * opacity, 1000)
}

/// One channel of the standard "over" blend: source `s` over destination
/// `d` with source alpha `a`, all in [0, 255].
pub open spec fn blended_channel(s: int, d: int, a: int) -> int {
    round_div(s * a + d * (255 - a), 255)
}

/// The raster bytes after fading every alpha byte by `opacity` thousandths.
/// Color channels are untouched.
pub open spec fn opacity_adjusted(data: Seq<u8>, opacity: int) -> Seq<u8> {
    Seq::new(
        data.len(),
        |i: int|
            if i % 4 == 3 {
                scaled_alpha(data[i] as int, opacity) as u8
            } else {
                data[i]
            },
    )
}

/// Byte `i` of the base raster after the logo is blended over it at offset
/// `(ox, oy)`. A destination pixel is touched only where a logo pixel with
/// non-zero alpha lands on it; a touched pixel's colors follow the "over"
/// blend and its alpha is forced to fully opaque.
pub open spec fn overlaid_byte(
    base: Seq<u8>,
    bw: int,
    logo: Seq<u8>,
    lw: int,
    lh: int,
    ox: int,
    oy: int,
    i: int,
) -> u8 {
    let x = byte_pixel_x(i, bw);
    let y = byte_pixel_y(i, bw);
    let c = byte_channel(i);
    let lx = x - ox;
    let ly = y - oy;
    if 0 <= lx < lw && 0 <= ly < lh && logo[pixel_byte(lw, lx, ly, 3)] != 0 {
        if c == 3 {
            255u8
        } else {
            blended_channel(
                logo[pixel_byte(lw, lx, ly, c)] as int,
                base[i] as int,
                logo[pixel_byte(lw, lx, ly, 3)] as int,
            ) as u8
        }
    } else {
        base[i]
    }
}

/// The base raster's bytes after the logo is blended over it.
pub open spec fn overlaid(
    base: Seq<u8>,
    bw: int,
    logo: Seq<u8>,
    lw: int,
    lh: int,
    ox: int,
    oy: int,
) -> Seq<u8> {
    Seq::new(base.len(), |i: int| overlaid_byte(base, bw, logo, lw, lh, ox, oy, i))
}

/// The target for the logo's longer dimension: the base's shorter side
/// times the size fraction, rounded, and at least one pixel.
pub open spec fn target_side(bw: int, bh: int, frac: int) -> int {
    max(1, round_div(min(bw, bh) * frac, 1000))
}

/// The resized logo's dimensions: the longer dimension becomes the target
/// side, the other scales proportionally; both are at least one pixel.
pub open spec fn target_dims(lw: int, lh: int, bw: int, bh: int, frac: int) -> (int, int) {
    let t = target_side(bw, bh, frac);
    if lw >= lh {
        (t, max(1, round_div(lh * t, lw)))
    } else {
        (max(1, round_div(lw * t, lh)), t)
    }
}

/// Subtraction clamped to zero.
pub open spec fn sat_sub(a: int, b: int) -> int {
    if a >= b {
        a - b
    } else {
        0
    }
}

/// Top-left coordinate at which a logo of size `lw x lh` is drawn on a
/// base of size `bw x bh`, for each corner anchor. Oversized margins or
/// logos degrade to flush against the edge rather than underflowing.
pub open spec fn placement_spec(
    pos: Position,
    bw: int,
    bh: int,
    lw: int,
    lh: int,
    margin: int,
) -> (int, int) {
    match pos {
        Position::TopLeft => (margin, margin),
        Position::TopRight => (sat_sub(bw, lw + margin), margin),
        Position::BottomLeft => (margin, sat_sub(bh, lh + margin)),
        Position::BottomRight => (sat_sub(bw, lw + margin), sat_sub(bh, lh + margin)),
    }
}

fn sat_sub_u32(a: u32, b: u64) -> (r: u32)
    ensures
        r == sat_sub(a as int, b as int),
{
    if (a as u64) >= b {
        (a as u64 - b) as u32
    } else {
        0
    }
}

/// Computes the placement offset for the given corner anchor.
pub fn placement_coords(pos: Position, bw: u32, bh: u32, lw: u32, lh: u32, margin: u32) -> (r: (
    u32,
    u32,
))
    ensures
        r.0 == placement_spec(pos, bw as int, bh as int, lw as int, lh as int, margin as int).0,
        r.1 == placement_spec(pos, bw as int, bh as int, lw as int, lh as int, margin as int).1,
{
    match pos {
        Position::TopLeft => (margin, margin),
        Position::TopRight => (sat_sub_u32(bw, lw as u64 + margin as u64), margin),
        Position::BottomLeft => (margin, sat_sub_u32(bh, lh as u64 + margin as u64)),
        Position::BottomRight => (
            sat_sub_u32(bw, lw as u64 + margin as u64),
            sat_sub_u32(bh, lh as u64 + margin as u64),
        ),
    }
}

/// Computes the resized logo's dimensions for a base of size `bw x bh` and
/// a size fraction in thousandths.
pub fn scale_logo(lw: u32, lh: u32, bw: u32, bh: u32, frac: u32) -> (r: (u32, u32))
    requires
        1 <= lw,
        1 <= lh,
        1 <= bw,
        1 <= bh,
        1 <= frac <= 1000,
    ensures
        r.0 == target_dims(lw as int, lh as int, bw as int, bh as int, frac as int).0,
        r.1 == target_dims(lw as int, lh as int, bw as int, bh as int, frac as int).1,
        1 <= r.0 <= min(bw as int, bh as int),
        1 <= r.1 <= min(bw as int, bh as int),
{
    let mins: u64 = if bw <= bh {
        bw as u64
    } else {
        bh as u64
    };
    proof {
        assert(2 * (mins as int) * (frac as int) + 1000 <= u64::MAX as int) by (nonlinear_arith)
            requires
                mins as int <= u32::MAX as int,
                frac as int <= 1000,
        ;
    }
    let raw: u64 = (2 * mins * (frac as u64) + 1000) / 2000;
    proof {
        assert(2 * (mins as int) * (frac as int) == 2 * ((mins as int) * (frac as int)))
            by (nonlinear_arith);
        assert((2 * (mins as int) * (frac as int) + 1000) / 2000 <= mins as int)
            by (nonlinear_arith)
            requires
                1 <= mins as int,
                1 <= frac as int <= 1000,
        ;
    }
    let t: u64 = if raw == 0 {
        1
    } else {
        raw
    };
    assert(t as int == target_side(bw as int, bh as int, frac as int));
    if lw >= lh {
        proof {
            assert(2 * (lh as int) * (t as int) + (lw as int) <= u128::MAX as int)
                by (nonlinear_arith)
                requires
                    lh as int <= u32::MAX as int,
                    lw as int <= u32::MAX as int,
                    t as int <= u32::MAX as int,
            ;
        }
        let q: u128 = (2 * (lh as u128) * (t as u128) + (lw as u128)) / (2 * (lw as u128));
        proof {
            assert(2 * (lh as int) * (t as int) == 2 * ((lh as int) * (t as int)))
                by (nonlinear_arith);
            assert((2 * (lh as int) * (t as int) + lw as int) / (2 * (lw as int)) <= t as int)
                by (nonlinear_arith)
                requires
                    1 <= lh as int <= lw as int,
                    1 <= t as int,
            ;
            assert((2 * (lh as int) * (t as int) + lw as int) / (2 * (lw as int)) >= 0)
                by (nonlinear_arith)
                requires
                    1 <= lh as int,
                    1 <= lw as int,
                    1 <= t as int,
            ;
        }
        let oh: u32 = if q == 0 {
            1
        } else {
            q as u32
        };
        (t as u32, oh)
    } else {
        proof {
            assert(2 * (lw as int) * (t as int) + (lh as int) <= u128::MAX as int)
                by (nonlinear_arith)
                requires
                    lw as int <= u32::MAX as int,
                    lh as int <= u32::MAX as int,
                    t as int <= u32::MAX as int,
            ;
        }
        let q: u128 = (2 * (lw as u128) * (t as u128) + (lh as u128)) / (2 * (lh as u128));
        proof {
            assert(2 * (lw as int) * (t as int) == 2 * ((lw as int) * (t as int)))
                by (nonlinear_arith);
            assert((2 * (lw as int) * (t as int) + lh as int) / (2 * (lh as int)) <= t as int)
                by (nonlinear_arith)
                requires
                    1 <= lw as int <= lh as int,
                    1 <= t as int,
            ;
            assert((2 * (lw as int) * (t as int) + lh as int) / (2 * (lh as int)) >= 0)
                by (nonlinear_arith)
                requires
                    1 <= lw as int,
                    1 <= lh as int,
                    1 <= t as int,
            ;
        }
        let ow: u32 = if q == 0 {
            1
        } else {
            q as u32
        };
        (ow, t as u32)
    }
}

/// Fades every pixel's alpha byte by `opacity` thousandths, in place.
/// Color channels are never touched.
pub fn adjust_opacity(img: &mut Raster, opacity: u32)
    requires
        old(img).wf(),
        opacity <= 1000,
    ensures
        final(img).wf(),
        final(img).width == old(img).width,
        final(img).height == old(img).height,
        final(img).data@ == opacity_adjusted(old(img).data@, opacity as int),
{
    let ghost d0 = old(img).data@;
    proof {
        assert(img.data.len() <= usize::MAX);
        assert(0 <= (img.width as int) * (img.height as int) <= 4 * (img.width as int) * (
        img.height as int)) by (nonlinear_arith);
        assert(4 * ((img.width as int) * (img.height as int)) == 4 * (img.width as int) * (
        img.height as int)) by (nonlinear_arith);
    }
    let pixels: usize = (img.width as usize) * (img.height as usize);
    let mut p: usize = 0;
    while p < pixels
        invariant
            p <= pixels,
            4 * pixels <= usize::MAX,
            opacity <= 1000,
            img.width == old(img).width,
            img.height == old(img).height,
            img.data@.len() == d0.len(),
            d0.len() == 4 * pixels,
            d0 == old(img).data@,
            forall|j: int|
                0 <= j < d0.len() ==> img.data@[j] == (if j % 4 == 3 && j < 4 * p {
                    scaled_alpha(d0[j] as int, opacity as int) as u8
                } else {
                    d0[j]
                }),
        decreases pixels - p,
    {
        let j: usize = 4 * p + 3;
        let a: u32 = img.data[j] as u32;
        proof {
            assert(a * opacity <= 255000) by (nonlinear_arith)
                requires
                    a <= 255,
                    opacity <= 1000,
            ;
        }
        let v: u32 = (2 * (a * opacity) + 1000) / 2000;
        proof {
            assert(v <= 255) by (nonlinear_arith)
                requires
                    a <= 255,
                    opacity <= 1000,
                    v == ((2 * (a * opacity) + 1000) / 2000) as u32,
            ;
            assert(v as int == scaled_alpha(a as int, opacity as int));
        }
        let ghost before = img.data@;
        img.data[j] = v as u8;
        proof {
            lemma_fundamental_div_mod_converse(j as int, 4, p as int, 3);
            assert forall|k: int| 0 <= k < d0.len() implies img.data@[k] == (if k % 4 == 3 && k < 4
                * (p + 1) {
                scaled_alpha(d0[k] as int, opacity as int) as u8
            } else {
                d0[k]
            }) by {
                if k != j as int {
                    assert(img.data@[k] == before[k]);
                    if k % 4 == 3 && 4 * p as int <= k < 4 * (p + 1) {
                        lemma_fundamental_div_mod(k, 4);
                        lemma_fundamental_div_mod_converse(k, 4, p as int, k - 4 * p as int);
                        assert(k == j as int);
                    }
                }
            }
        }
        p = p + 1;
    }
    proof {
        assert(img.data@ =~= opacity_adjusted(d0, opacity as int));
    }
}

/// The bytes of `src` (an RGBA raster of size `src_w x src_h`) resampled
/// to an RGBA raster of size `out_w x out_h` with a Lanczos filter. The
/// result depends on the arguments alone; it is computed by an outside
/// library and left uninterpreted here.
pub uninterp spec fn resampled_pixels(
    src: Seq<u8>,
    src_w: int,
    src_h: int,
    out_w: int,
    out_h: int,
) -> Seq<u8>;

/// Relies on image::imageops::resize with the Lanczos3 filter: it returns
/// an image of exactly the requested dimensions (four bytes per pixel),
/// computed from the source pixels alone; and on
/// image::ImageBuffer::from_raw, which accepts a buffer holding exactly
/// four bytes per pixel.
#[verifier::external_body]
fn resample(logo: &Raster, out_w: u32, out_h: u32) -> (r: Raster)
    requires
        logo.wf(),
        1 <= out_w,
        1 <= out_h,
        4 * (out_w as int) * (out_h as int) <= usize::MAX as int,
    ensures
        r.wf(),
        r.width == out_w,
        r.height == out_h,
        r.data@ == resampled_pixels(
            logo.data@,
            logo.width as int,
            logo.height as int,
            out_w as int,
            out_h as int,
        ),
{
    let img: image::RgbaImage =
        image::RgbaImage::from_raw(logo.width, logo.height, logo.data.clone())
            .expect("raster buffer holds width * height RGBA pixels");
    let out = image::imageops::resize(&img, out_w, out_h, image::imageops::FilterType::Lanczos3);
    Raster { width: out_w, height: out_h, data: out.into_raw() }
}

/// Bytes of the base after blending, in row-major order, every logo pixel
/// of a row before `rows`, and of row `rows` every pixel of a column
/// before `cols`.
spec fn overlaid_partial(
    base: Seq<u8>,
    bw: int,
    logo: Seq<u8>,
    lw: int,
    lh: int,
    ox: int,
    oy: int,
    rows: int,
    cols: int,
) -> Seq<u8> {
    Seq::new(
        base.len(),
        |i: int|
            {
                let lx = byte_pixel_x(i, bw) - ox;
                let ly = byte_pixel_y(i, bw) - oy;
                if 0 <= lx < lw && 0 <= ly && (ly < rows || (ly == rows && lx < cols)) {
                    overlaid_byte(base, bw, logo, lw, lh, ox, oy, i)
                } else {
                    base[i]
                }
            },
    )
}

proof fn lemma_partial_start(
    base: Seq<u8>,
    bw: int,
    logo: Seq<u8>,
    lw: int,
    lh: int,
    ox: int,
    oy: int,
)
    ensures
        overlaid_partial(base, bw, logo, lw, lh, ox, oy, 0, 0) == base,
{
    assert(overlaid_partial(base, bw, logo, lw, lh, ox, oy, 0, 0) =~= base);
}

proof fn lemma_partial_row(
    base: Seq<u8>,
    bw: int,
    logo: Seq<u8>,
    lw: int,
    lh: int,
    ox: int,
    oy: int,
    rows: int,
)
    ensures
        overlaid_partial(base, bw, logo, lw, lh, ox, oy, rows, lw) == overlaid_partial(
            base,
            bw,
            logo,
            lw,
            lh,
            ox,
            oy,
            rows + 1,
            0,
        ),
{
    assert(overlaid_partial(base, bw, logo, lw, lh, ox, oy, rows, lw) =~= overlaid_partial(
        base,
        bw,
        logo,
        lw,
        lh,
        ox,
        oy,
        rows + 1,
        0,
    ));
}

proof fn lemma_partial_finish(
    base: Seq<u8>,
    bw: int,
    logo: Seq<u8>,
    lw: int,
    lh: int,
    ox: int,
    oy: int,
)
    ensures
        overlaid_partial(base, bw, logo, lw, lh, ox, oy, lh, 0) == overlaid(
            base,
            bw,
            logo,
            lw,
            lh,
            ox,
            oy,
        ),
{
    assert(overlaid_partial(base, bw, logo, lw, lh, ox, oy, lh, 0) =~= overlaid(
        base,
        bw,
        logo,
        lw,
        lh,
        ox,
        oy,
    ));
}

/// Passing over a logo pixel that lands outside the base, or whose alpha
/// is zero, leaves the partially blended base as it is.
proof fn lemma_partial_skip(
    base: Seq<u8>,
    bw: int,
    bh: int,
    logo: Seq<u8>,
    lw: int,
    lh: int,
    ox: int,
    oy: int,
    rows: int,
    cols: int,
)
    requires
        base.len() == 4 * bw * bh,
        0 <= bw,
        0 <= bh,
        0 <= ox,
        0 <= oy,
        0 <= rows < lh,
        0 <= cols < lw,
        ox + cols >= bw || oy + rows >= bh || logo[pixel_byte(lw, cols, rows, 3)] == 0,
    ensures
        overlaid_partial(base, bw, logo, lw, lh, ox, oy, rows, cols) == overlaid_partial(
            base,
            bw,
            logo,
            lw,
            lh,
            ox,
            oy,
            rows,
            cols + 1,
        ),
{
    let prev = overlaid_partial(base, bw, logo, lw, lh, ox, oy, rows, cols);
    let next = overlaid_partial(base, bw, logo, lw, lh, ox, oy, rows, cols + 1);
    assert forall|i: int| 0 <= i < base.len() implies prev[i] == next[i] by {
        assert(bw > 0) by (nonlinear_arith)
            requires
                0 <= bw,
                0 <= bh,
                0 < 4 * bw * bh,
        ;
        lemma_coords_of_byte(bw, bh, i);
        let lx = byte_pixel_x(i, bw) - ox;
        let ly = byte_pixel_y(i, bw) - oy;
        if lx == cols && ly == rows {
            assert(byte_pixel_x(i, bw) < bw && byte_pixel_y(i, bw) < bh);
            assert(logo[pixel_byte(lw, cols, rows, 3)] == 0);
            assert(overlaid_byte(base, bw, logo, lw, lh, ox, oy, i) == base[i]);
        }
    }
    assert(prev =~= next);
}

/// Blending a logo pixel that lands inside the base and has non-zero
/// alpha rewrites exactly the four bytes of its destination pixel: the
/// colors by the "over" blend against the original base, the alpha to
/// fully opaque.
proof fn lemma_partial_write(
    base: Seq<u8>,
    bw: int,
    bh: int,
    logo: Seq<u8>,
    lw: int,
    lh: int,
    ox: int,
    oy: int,
    rows: int,
    cols: int,
)
    requires
        base.len() == 4 * bw * bh,
        0 <= bw,
        0 <= bh,
        0 <= ox,
        0 <= oy,
        0 <= rows < lh,
        0 <= cols < lw,
        ox + cols < bw,
        oy + rows < bh,
        logo[pixel_byte(lw, cols, rows, 3)] != 0,
    ensures
        ({
            let x = ox + cols;
            let y = oy + rows;
            let di = pixel_byte(bw, x, y, 0);
            let a = logo[pixel_byte(lw, cols, rows, 3)] as int;
            overlaid_partial(base, bw, logo, lw, lh, ox, oy, rows, cols).update(
                di,
                blended_channel(logo[pixel_byte(lw, cols, rows, 0)] as int, base[di] as int, a) as u8,
            ).update(
                di + 1,
                blended_channel(
                    logo[pixel_byte(lw, cols, rows, 1)] as int,
                    base[di + 1] as int,
                    a,
                ) as u8,
            ).update(
                di + 2,
                blended_channel(
                    logo[pixel_byte(lw, cols, rows, 2)] as int,
                    base[di + 2] as int,
                    a,
                ) as u8,
            ).update(di + 3, 255u8) == overlaid_partial(
                base,
                bw,
                logo,
                lw,
                lh,
                ox,
                oy,
                rows,
                cols + 1,
            )
        }),
{
    let x = ox + cols;
    let y = oy + rows;
    let di = pixel_byte(bw, x, y, 0);
    let a = logo[pixel_byte(lw, cols, rows, 3)] as int;
    let prev = overlaid_partial(base, bw, logo, lw, lh, ox, oy, rows, cols);
    let next = overlaid_partial(base, bw, logo, lw, lh, ox, oy, rows, cols + 1);
    let written = prev.update(
        di,
        blended_channel(logo[pixel_byte(lw, cols, rows, 0)] as int, base[di] as int, a) as u8,
    ).update(
        di + 1,
        blended_channel(logo[pixel_byte(lw, cols, rows, 1)] as int, base[di + 1] as int, a) as u8,
    ).update(
        di + 2,
        blended_channel(logo[pixel_byte(lw, cols, rows, 2)] as int, base[di + 2] as int, a) as u8,
    ).update(di + 3, 255u8);
    lemma_pixel_byte_in_range(bw, bh, x, y, 0);
    lemma_pixel_byte_in_range(bw, bh, x, y, 3);
    lemma_byte_coords(bw, x, y, 0);
    lemma_byte_coords(bw, x, y, 1);
    lemma_byte_coords(bw, x, y, 2);
    lemma_byte_coords(bw, x, y, 3);
    assert forall|i: int| 0 <= i < base.len() implies written[i] == next[i] by {
        lemma_coords_of_byte(bw, bh, i);
        let xi = byte_pixel_x(i, bw);
        let yi = byte_pixel_y(i, bw);
        let ci = byte_channel(i);
        if xi == x && yi == y {
            assert(i == pixel_byte(bw, x, y, ci));
            assert(di + ci == pixel_byte(bw, x, y, ci));
            assert(next[i] == overlaid_byte(base, bw, logo, lw, lh, ox, oy, i));
        } else {
            assert(i != di && i != di + 1 && i != di + 2 && i != di + 3);
            assert(written[i] == prev[i]);
        }
    }
    assert(written =~= next);
}

/// Blends the logo over the base at offset `(x0, y0)`, in place. Logo
/// pixels that land outside the base, and logo pixels with zero alpha,
/// leave the destination untouched; every other destination pixel takes
/// the "over" blend of the logo pixel and is forced fully opaque.
pub fn overlay(base: &mut Raster, logo: &Raster, x0: u32, y0: u32)
    requires
        old(base).wf(),
        logo.wf(),
    ensures
        final(base).wf(),
        final(base).width == old(base).width,
        final(base).height == old(base).height,
        final(base).data@ == overlaid(
            old(base).data@,
            old(base).width as int,
            logo.data@,
            logo.width as int,
            logo.height as int,
            x0 as int,
            y0 as int,
        ),
{
    let ghost b0 = old(base).data@;
    let bw = base.width;
    let bh = base.height;
    let lw = logo.width;
    let lh = logo.height;
    proof {
        lemma_partial_start(b0, bw as int, logo.data@, lw as int, lh as int, x0 as int, y0 as int);
    }
    let mut ly: u32 = 0;
    while ly < lh
        invariant
            ly <= lh,
            base.width == bw,
            base.height == bh,
            logo.wf(),
            logo.width == lw,
            logo.height == lh,
            b0.len() == 4 * (bw as int) * (bh as int),
            base.data@ == overlaid_partial(
                b0,
                bw as int,
                logo.data@,
                lw as int,
                lh as int,
                x0 as int,
                y0 as int,
                ly as int,
                0,
            ),
        decreases lh - ly,
    {
        let mut lx: u32 = 0;
        while lx < lw
            invariant
                lx <= lw,
                ly < lh,
                base.width == bw,
                base.height == bh,
                logo.wf(),
                logo.width == lw,
                logo.height == lh,
                b0.len() == 4 * (bw as int) * (bh as int),
                base.data@ == overlaid_partial(
                    b0,
                    bw as int,
                    logo.data@,
                    lw as int,
                    lh as int,
                    x0 as int,
                    y0 as int,
                    ly as int,
                    lx as int,
                ),
            decreases lw - lx,
        {
            let x64: u64 = x0 as u64 + lx as u64;
            let y64: u64 = y0 as u64 + ly as u64;
            if x64 < bw as u64 && y64 < bh as u64 {
                proof {
                    lemma_pixel_byte_in_range(lw as int, lh as int, lx as int, ly as int, 3);
                    assert(logo.data.len() <= usize::MAX);
                    let ql = (ly as int) * (lw as int) + lx as int;
                    assert(0 <= ql && 4 * ql + 3 < logo.data@.len());
                }
                let li: usize = 4 * ((ly as usize) * (lw as usize) + (lx as usize));
                let a8: u8 = logo.data[li + 3];
                if a8 != 0 {
                    let x: u32 = x64 as u32;
                    let y: u32 = y64 as u32;
                    proof {
                        lemma_pixel_byte_in_range(bw as int, bh as int, x as int, y as int, 3);
                        assert(base.data.len() <= usize::MAX);
                        let qb = (y as int) * (bw as int) + x as int;
                        assert(0 <= qb && 4 * qb + 3 < base.data@.len());
                    }
                    let di: usize = 4 * ((y as usize) * (bw as usize) + (x as usize));
                    proof {
                        lemma_byte_coords(bw as int, x as int, y as int, 0);
                        lemma_byte_coords(bw as int, x as int, y as int, 1);
                        lemma_byte_coords(bw as int, x as int, y as int, 2);
                        lemma_byte_coords(bw as int, x as int, y as int, 3);
                        assert(base.data@[di as int] == b0[di as int]);
                        assert(base.data@[di as int + 1] == b0[di as int + 1]);
                        assert(base.data@[di as int + 2] == b0[di as int + 2]);
                    }
                    let a: u32 = a8 as u32;
                    let inv: u32 = 255 - a;
                    let s0: u32 = logo.data[li] as u32;
                    let s1: u32 = logo.data[li + 1] as u32;
                    let s2: u32 = logo.data[li + 2] as u32;
                    let d0: u32 = base.data[di] as u32;
                    let d1: u32 = base.data[di + 1] as u32;
                    let d2: u32 = base.data[di + 2] as u32;
                    proof {
                        assert(s0 * a + d0 * inv <= 65025 && s1 * a + d1 * inv <= 65025 && s2 * a
                            + d2 * inv <= 65025) by (nonlinear_arith)
                            requires
                                s0 <= 255,
                                s1 <= 255,
                                s2 <= 255,
                                d0 <= 255,
                                d1 <= 255,
                                d2 <= 255,
                                a <= 255,
                                inv == 255 - a,
                        ;
                    }
                    let v0: u32 = (2 * (s0 * a + d0 * inv) + 255) / 510;
                    let v1: u32 = (2 * (s1 * a + d1 * inv) + 255) / 510;
                    let v2: u32 = (2 * (s2 * a + d2 * inv) + 255) / 510;
                    proof {
                        assert(v0 <= 255 && v1 <= 255 && v2 <= 255);
                        assert(v0 as int == blended_channel(s0 as int, d0 as int, a as int));
                        assert(v1 as int == blended_channel(s1 as int, d1 as int, a as int));
                        assert(v2 as int == blended_channel(s2 as int, d2 as int, a as int));
                    }
                    base.data[di] = v0 as u8;
                    base.data[di + 1] = v1 as u8;
                    base.data[di + 2] = v2 as u8;
                    base.data[di + 3] = 255;
                    proof {
                        lemma_partial_write(
                            b0,
                            bw as int,
                            bh as int,
                            logo.data@,
                            lw as int,
                            lh as int,
                            x0 as int,
                            y0 as int,
                            ly as int,
                            lx as int,
                        );
                        assert(base.data@ == overlaid_partial(
                            b0,
                            bw as int,
                            logo.data@,
                            lw as int,
                            lh as int,
                            x0 as int,
                            y0 as int,
                            ly as int,
                            lx as int + 1,
                        ));
                    }
                } else {
                    proof {
                        lemma_partial_skip(
                            b0,
                            bw as int,
                            bh as int,
                            logo.data@,
                            lw as int,
                            lh as int,
                            x0 as int,
                            y0 as int,
                            ly as int,
                            lx as int,
                        );
                    }
                }
            } else {
                proof {
                    lemma_partial_skip(
                        b0,
                        bw as int,
                        bh as int,
                        logo.data@,
                        lw as int,
                        lh as int,
                        x0 as int,
                        y0 as int,
                        ly as int,
                        lx as int,
                    );
                }
            }
            lx = lx + 1;
        }
        proof {
            lemma_partial_row(
                b0,
                bw as int,
                logo.data@,
                lw as int,
                lh as int,
                x0 as int,
                y0 as int,
                ly as int,
            );
        }
        ly = ly + 1;
    }
    proof {
        lemma_partial_finish(
            b0,
            bw as int,
            logo.data@,
            lw as int,
            lh as int,
            x0 as int,
            y0 as int,
        );
    }
}

/// The base raster's bytes after the whole pipeline: the logo resampled
/// to its target dimensions, faded by the opacity, and blended over the
/// base at the chosen corner.
pub open spec fn composite_spec(
    base: Seq<u8>,
    bw: int,
    bh: int,
    logo: Seq<u8>,
    lw: int,
    lh: int,
    pos: Position,
    margin: int,
    frac: int,
    opacity: int,
) -> Seq<u8> {
    let dims = target_dims(lw, lh, bw, bh, frac);
    let scaled = resampled_pixels(logo, lw, lh, dims.0, dims.1);
    let faded = opacity_adjusted(scaled, opacity);
    let at = placement_spec(pos, bw, bh, dims.0, dims.1, margin);
    overlaid(base, bw, faded, dims.0, dims.1, at.0, at.1)
}

/// Which result compositing returns: invalid parameters are rejected
/// first, then empty rasters; otherwise the operation succeeds.
pub open spec fn composite_result(
    opts: CompositeOptions,
    bw: int,
    bh: int,
    lw: int,
    lh: int,
) -> Result<(), CompositeError> {
    if !params_valid(opts) {
        Err(CompositeError::InvalidParameter)
    } else if bw == 0 || bh == 0 || lw == 0 || lh == 0 {
        Err(CompositeError::EmptyRaster)
    } else {
        Ok(())
    }
}

/// Composites the logo onto the base, in place: scales the logo so that
/// its longer dimension is `opts.max_logo_per_mille` thousandths of the
/// base's shorter side, fades it to `opts.opacity_per_mille` thousandths
/// opacity, and blends it at the `opts.position` corner, `opts.margin`
/// pixels from the edges. Fails fast, before any pixel work, on an
/// out-of-range parameter or an empty raster; the base is then unchanged.
pub fn composite_logo(base: &mut Raster, logo: &Raster, opts: &CompositeOptions) -> (r: Result<
    (),
    CompositeError,
>)
    requires
        old(base).wf(),
        logo.wf(),
    ensures
        final(base).wf(),
        final(base).width == old(base).width,
        final(base).height == old(base).height,
        r == composite_result(
            *opts,
            old(base).width as int,
            old(base).height as int,
            logo.width as int,
            logo.height as int,
        ),
        r is Err ==> final(base).data@ == old(base).data@,
        r is Ok ==> final(base).data@ == composite_spec(
            old(base).data@,
            old(base).width as int,
            old(base).height as int,
            logo.data@,
            logo.width as int,
            logo.height as int,
            opts.position,
            opts.margin as int,
            opts.max_logo_per_mille as int,
            opts.opacity_per_mille as int,
        ),
{
    if opts.max_logo_per_mille == 0 || opts.max_logo_per_mille > 1000 || opts.opacity_per_mille
        > 1000 {
        return Err(CompositeError::InvalidParameter);
    }
    if base.width == 0 || base.height == 0 || logo.width == 0 || logo.height == 0 {
        return Err(CompositeError::EmptyRaster);
    }
    let dims = scale_logo(
        logo.width,
        logo.height,
        base.width,
        base.height,
        opts.max_logo_per_mille,
    );
    proof {
        assert(4 * (dims.0 as int) * (dims.1 as int) <= 4 * (base.width as int) * (
        base.height as int)) by (nonlinear_arith)
            requires
                1 <= dims.0 as int <= base.width as int,
                1 <= dims.1 as int <= base.height as int,
        ;
        assert(base.data.len() <= usize::MAX);
    }
    let mut scaled = resample(logo, dims.0, dims.1);
    adjust_opacity(&mut scaled, opts.opacity_per_mille);
    let at = placement_coords(opts.position, base.width, base.height, dims.0, dims.1, opts.margin);
    overlay(base, &scaled, at.0, at.1);
    Ok(())
}

} // verus!
