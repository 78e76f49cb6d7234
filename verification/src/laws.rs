//! General properties of the engine, stated and proved over the same
//! spec functions that the executable functions' contracts use.

use vstd::arithmetic::div_mod::{
    lemma_div_is_ordered, lemma_fundamental_div_mod, lemma_fundamental_div_mod_converse,
    lemma_mod_division_less_than_divisor,
};
use vstd::math::{abs, max, min};
use vstd::prelude::*;

use crate::compositor::{
    blended_channel, composite_spec, opacity_adjusted, overlaid, placement_spec, round_div,
    scaled_alpha, target_dims, target_side,
};
use crate::params::Position;
use crate::raster::{lemma_byte_coords, lemma_pixel_byte_in_range, pixel_byte};

verus! {

/// For every corner anchor the placement offset stays inside the base:
/// `0 <= x <= bw` and `0 <= y <= bh`, even when the margin plus the logo
/// size exceeds the base size — provided the margin itself fits in the
/// base, since the top and left anchored coordinates are the margin
/// verbatim.
pub proof fn lemma_placement_within_base(
    pos: Position,
    bw: int,
    bh: int,
    lw: int,
    lh: int,
    margin: int,
)
    requires
        0 <= lw,
        0 <= lh,
        0 <= margin <= bw,
        margin <= bh,
    ensures
        0 <= placement_spec(pos, bw, bh, lw, lh, margin).0 <= bw,
        0 <= placement_spec(pos, bw, bh, lw, lh, margin).1 <= bh,
{
}

/// Scaling preserves the logo's aspect ratio within rounding error:
/// cross-multiplied, the output and input ratios differ by at most half
/// the longer input dimension — whenever the one-pixel floor on the
/// scaled dimension does not engage.
pub proof fn lemma_scaling_preserves_aspect(lw: int, lh: int, bw: int, bh: int, frac: int)
    requires
        1 <= lw,
        1 <= lh,
        1 <= bw,
        1 <= bh,
        1 <= frac <= 1000,
        2 * min(lw, lh) * target_side(bw, bh, frac) >= max(lw, lh),
    ensures
        ({
            let dims = target_dims(lw, lh, bw, bh, frac);
            2 * abs(dims.0 * lh - dims.1 * lw) <= max(lw, lh)
        }),
{
    let t = target_side(bw, bh, frac);
    if lw >= lh {
        let n = 2 * (lh * t) + lw;
        let d = 2 * lw;
        let q = n / d;
        assert(2 * (lh * t) == 2 * lh * t) by (nonlinear_arith);
        lemma_div_is_ordered(d, n, d);
        assert(d / d == 1) by (nonlinear_arith)
            requires
                d > 0,
        ;
        assert(q >= 1);
        lemma_fundamental_div_mod(n, d);
        lemma_mod_division_less_than_divisor(n, d);
        let r = n % d;
        assert(n == d * q + r && 0 <= r < d);
        assert(2 * (t * lh - q * lw) == r - lw) by (nonlinear_arith)
            requires
                n == d * q + r,
                n == 2 * (lh * t) + lw,
                d == 2 * lw,
        ;
        assert(round_div(lh * t, lw) == q);
        assert(target_dims(lw, lh, bw, bh, frac) == (t, q));
        assert(2 * abs(t * lh - q * lw) <= lw);
    } else {
        let n = 2 * (lw * t) + lh;
        let d = 2 * lh;
        let q = n / d;
        assert(2 * (lw * t) == 2 * lw * t) by (nonlinear_arith);
        lemma_div_is_ordered(d, n, d);
        assert(d / d == 1) by (nonlinear_arith)
            requires
                d > 0,
        ;
        assert(q >= 1);
        lemma_fundamental_div_mod(n, d);
        lemma_mod_division_less_than_divisor(n, d);
        let r = n % d;
        assert(n == d * q + r && 0 <= r < d);
        assert(2 * (q * lh - t * lw) == lh - r) by (nonlinear_arith)
            requires
                n == d * q + r,
                n == 2 * (lw * t) + lh,
                d == 2 * lh,
        ;
        assert(round_div(lw * t, lh) == q);
        assert(target_dims(lw, lh, bw, bh, frac) == (q, t));
        assert(2 * abs(q * lh - t * lw) <= lh);
    }
}

/// A fully transparent logo (alpha zero everywhere) leaves the base
/// byte-for-byte unchanged under blending.
pub proof fn lemma_transparent_logo_blend(
    base: Seq<u8>,
    bw: int,
    logo: Seq<u8>,
    lw: int,
    lh: int,
    ox: int,
    oy: int,
)
    requires
        forall|lx: int, ly: int|
            0 <= lx < lw && 0 <= ly < lh ==> logo[#[trigger] pixel_byte(lw, lx, ly, 3)] == 0,
    ensures
        overlaid(base, bw, logo, lw, lh, ox, oy) == base,
{
    let out = overlaid(base, bw, logo, lw, lh, ox, oy);
    assert forall|i: int| 0 <= i < base.len() implies out[i] == base[i] by {
        let lx = crate::raster::byte_pixel_x(i, bw) - ox;
        let ly = crate::raster::byte_pixel_y(i, bw) - oy;
        if 0 <= lx < lw && 0 <= ly < lh {
            assert(logo[pixel_byte(lw, lx, ly, 3)] == 0);
        }
    }
    assert(out =~= base);
}

/// A fully opaque logo writes its own colors: every base pixel covered
/// by the logo ends up exactly equal to the logo pixel's RGB with alpha
/// forced to 255, and every other base pixel is unchanged.
pub proof fn lemma_opaque_logo_blend(
    base: Seq<u8>,
    bw: int,
    bh: int,
    logo: Seq<u8>,
    lw: int,
    lh: int,
    ox: int,
    oy: int,
)
    requires
        base.len() == 4 * bw * bh,
        0 <= bw,
        0 <= bh,
        0 <= ox,
        0 <= oy,
        forall|lx: int, ly: int|
            0 <= lx < lw && 0 <= ly < lh ==> logo[#[trigger] pixel_byte(lw, lx, ly, 3)] == 255,
    ensures
        forall|x: int, y: int, c: int|
            0 <= c < 3 && 0 <= x < bw && 0 <= y < bh && ox <= x < ox + lw && oy <= y < oy + lh
                ==> overlaid(base, bw, logo, lw, lh, ox, oy)[#[trigger] pixel_byte(bw, x, y, c)]
                == logo[pixel_byte(lw, x - ox, y - oy, c)],
        forall|x: int, y: int|
            0 <= x < bw && 0 <= y < bh && ox <= x < ox + lw && oy <= y < oy + lh ==> overlaid(
                base,
                bw,
                logo,
                lw,
                lh,
                ox,
                oy,
            )[#[trigger] pixel_byte(bw, x, y, 3)] == 255,
        forall|x: int, y: int, c: int|
            0 <= c < 4 && 0 <= x < bw && 0 <= y < bh && !(ox <= x < ox + lw && oy <= y < oy + lh)
                ==> overlaid(base, bw, logo, lw, lh, ox, oy)[#[trigger] pixel_byte(bw, x, y, c)]
                == base[pixel_byte(bw, x, y, c)],
{
    let out = overlaid(base, bw, logo, lw, lh, ox, oy);
    assert forall|x: int, y: int, c: int|
        0 <= c < 3 && 0 <= x < bw && 0 <= y < bh && ox <= x < ox + lw && oy <= y < oy
            + lh implies out[#[trigger] pixel_byte(bw, x, y, c)] == logo[pixel_byte(
        lw,
        x - ox,
        y - oy,
        c,
    )] by {
        let i = pixel_byte(bw, x, y, c);
        lemma_pixel_byte_in_range(bw, bh, x, y, c);
        lemma_byte_coords(bw, x, y, c);
        let lx = x - ox;
        let ly = y - oy;
        assert(logo[pixel_byte(lw, lx, ly, 3)] == 255);
        let s = logo[pixel_byte(lw, lx, ly, c)] as int;
        assert(s * 255 + (base[i] as int) * (255 - 255) == 255 * s) by (nonlinear_arith);
        lemma_fundamental_div_mod_converse(2 * (255 * s) + 255, 510, s, 255);
        assert(blended_channel(s, base[i] as int, 255) == s);
    }
    assert forall|x: int, y: int|
        0 <= x < bw && 0 <= y < bh && ox <= x < ox + lw && oy <= y < oy + lh implies out[#[trigger] pixel_byte(
        bw,
        x,
        y,
        3,
    )] == 255 by {
        lemma_pixel_byte_in_range(bw, bh, x, y, 3);
        lemma_byte_coords(bw, x, y, 3);
        assert(logo[pixel_byte(lw, x - ox, y - oy, 3)] == 255);
    }
    assert forall|x: int, y: int, c: int|
        0 <= c < 4 && 0 <= x < bw && 0 <= y < bh && !(ox <= x < ox + lw && oy <= y < oy
            + lh) implies out[#[trigger] pixel_byte(bw, x, y, c)] == base[pixel_byte(
        bw,
        x,
        y,
        c,
    )] by {
        lemma_pixel_byte_in_range(bw, bh, x, y, c);
        lemma_byte_coords(bw, x, y, c);
    }
}

/// Fading by full opacity is the identity: every alpha byte is kept.
pub proof fn lemma_full_opacity_identity(data: Seq<u8>)
    ensures
        opacity_adjusted(data, 1000) == data,
{
    assert forall|i: int| 0 <= i < data.len() implies opacity_adjusted(data, 1000)[i] == data[i] by {
        if i % 4 == 3 {
            let a = data[i] as int;
            lemma_fundamental_div_mod_converse(2 * (a * 1000) + 1000, 2000, a, 1000);
            assert(scaled_alpha(a, 1000) == a);
        }
    }
    assert(opacity_adjusted(data, 1000) =~= data);
}

/// Any pixel the blend touches comes out fully opaque, whatever the
/// destination's alpha was before.
pub proof fn lemma_blend_touched_opaque(
    base: Seq<u8>,
    bw: int,
    bh: int,
    logo: Seq<u8>,
    lw: int,
    lh: int,
    ox: int,
    oy: int,
    x: int,
    y: int,
)
    requires
        base.len() == 4 * bw * bh,
        0 <= ox,
        0 <= oy,
        0 <= x < bw,
        0 <= y < bh,
        ox <= x < ox + lw,
        oy <= y < oy + lh,
        logo[pixel_byte(lw, x - ox, y - oy, 3)] != 0,
    ensures
        overlaid(base, bw, logo, lw, lh, ox, oy)[pixel_byte(bw, x, y, 3)] == 255,
{
    lemma_pixel_byte_in_range(bw, bh, x, y, 3);
    lemma_byte_coords(bw, x, y, 3);
}

proof fn lemma_blended_at_zero(s: int, d: int)
    requires
        0 <= d <= 255,
    ensures
        blended_channel(s, d, 0) == d,
{
    assert(s * 0 + d * (255 - 0) == 255 * d) by (nonlinear_arith);
    lemma_fundamental_div_mod_converse(2 * (255 * d) + 255, 510, d, 255);
}

proof fn lemma_blended_monotone(s: int, d: int, a1: int, a2: int)
    requires
        0 <= s <= 255,
        0 <= d <= 255,
        0 <= a1 <= a2,
    ensures
        s >= d ==> blended_channel(s, d, a1) <= blended_channel(s, d, a2),
        s <= d ==> blended_channel(s, d, a2) <= blended_channel(s, d, a1),
{
    let n1 = s * a1 + d * (255 - a1);
    let n2 = s * a2 + d * (255 - a2);
    assert((s * a2 + d * (255 - a2)) - (s * a1 + d * (255 - a1)) == (s - d) * (a2 - a1))
        by (nonlinear_arith);
    if s >= d {
        assert((s - d) * (a2 - a1) >= 0) by (nonlinear_arith)
            requires
                s >= d,
                a2 >= a1,
        ;
        lemma_div_is_ordered(2 * n1 + 255, 2 * n2 + 255, 510);
    }
    if s <= d {
        assert((s - d) * (a2 - a1) <= 0) by (nonlinear_arith)
            requires
                s <= d,
                a2 >= a1,
        ;
        lemma_div_is_ordered(2 * n2 + 255, 2 * n1 + 255, 510);
    }
}

/// Opacity scaling is monotone: blending a source channel at a lower
/// opacity leaves the destination channel at least as close to its
/// original value as blending it at a higher opacity does.
pub proof fn lemma_opacity_monotone(s: int, d: int, a: int, o1: int, o2: int)
    requires
        0 <= s <= 255,
        0 <= d <= 255,
        0 <= a <= 255,
        0 <= o1 <= o2 <= 1000,
    ensures
        abs(blended_channel(s, d, scaled_alpha(a, o1)) - d) <= abs(
            blended_channel(s, d, scaled_alpha(a, o2)) - d,
        ),
{
    let a1 = scaled_alpha(a, o1);
    let a2 = scaled_alpha(a, o2);
    assert(a * o1 <= a * o2) by (nonlinear_arith)
        requires
            0 <= a,
            o1 <= o2,
    ;
    assert(a * o1 >= 0) by (nonlinear_arith)
        requires
            0 <= a,
            0 <= o1,
    ;
    lemma_div_is_ordered(2 * (a * o1) + 1000, 2 * (a * o2) + 1000, 2000);
    lemma_div_is_ordered(1000, 2 * (a * o1) + 1000, 2000);
    assert(1000int / 2000 == 0);
    assert(0 <= a1 <= a2);
    lemma_blended_at_zero(s, d);
    lemma_blended_monotone(s, d, 0, a1);
    lemma_blended_monotone(s, d, a1, a2);
}

/// Opacity scaling is monotone over whole blends: fading the same logo
/// to a lower opacity and blending it leaves every covered destination
/// channel at least as close to the original base value as the same
/// blend at a higher opacity does.
pub proof fn lemma_opacity_monotone_blend(
    base: Seq<u8>,
    bw: int,
    bh: int,
    logo: Seq<u8>,
    lw: int,
    lh: int,
    ox: int,
    oy: int,
    o1: int,
    o2: int,
    x: int,
    y: int,
    c: int,
)
    requires
        base.len() == 4 * bw * bh,
        logo.len() == 4 * lw * lh,
        0 <= ox,
        0 <= oy,
        0 <= x < bw,
        0 <= y < bh,
        ox <= x < ox + lw,
        oy <= y < oy + lh,
        0 <= c < 3,
        0 <= o1 <= o2 <= 1000,
    ensures
        ({
            let i = pixel_byte(bw, x, y, c);
            let low = overlaid(base, bw, opacity_adjusted(logo, o1), lw, lh, ox, oy);
            let high = overlaid(base, bw, opacity_adjusted(logo, o2), lw, lh, ox, oy);
            abs(low[i] - base[i]) <= abs(high[i] - base[i])
        }),
{
    let i = pixel_byte(bw, x, y, c);
    lemma_pixel_byte_in_range(bw, bh, x, y, c);
    lemma_byte_coords(bw, x, y, c);
    let lx = x - ox;
    let ly = y - oy;
    let ja = pixel_byte(lw, lx, ly, 3);
    let jc = pixel_byte(lw, lx, ly, c);
    lemma_pixel_byte_in_range(lw, lh, lx, ly, 3);
    lemma_pixel_byte_in_range(lw, lh, lx, ly, c);
    lemma_byte_coords(lw, lx, ly, 3);
    lemma_byte_coords(lw, lx, ly, c);
    let a = logo[ja] as int;
    let s = logo[jc] as int;
    let d = base[i] as int;
    let a1 = scaled_alpha(a, o1);
    let a2 = scaled_alpha(a, o2);
    assert(0 <= a * o1 <= a * o2 <= a * 1000) by (nonlinear_arith)
        requires
            0 <= a,
            0 <= o1 <= o2 <= 1000,
    ;
    lemma_div_is_ordered(1000, 2 * (a * o1) + 1000, 2000);
    assert(1000int / 2000 == 0);
    lemma_div_is_ordered(2 * (a * o1) + 1000, 2 * (a * o2) + 1000, 2000);
    lemma_div_is_ordered(2 * (a * o2) + 1000, 2 * (a * 1000) + 1000, 2000);
    lemma_fundamental_div_mod_converse(2 * (a * 1000) + 1000, 2000, a, 1000);
    assert(0 <= a1 <= a2 <= a <= 255);
    let f1 = opacity_adjusted(logo, o1);
    let f2 = opacity_adjusted(logo, o2);
    assert(f1[ja] as int == a1);
    assert(f2[ja] as int == a2);
    assert(f1[jc] == logo[jc]);
    assert(f2[jc] == logo[jc]);
    let low = overlaid(base, bw, f1, lw, lh, ox, oy);
    let high = overlaid(base, bw, f2, lw, lh, ox, oy);
    if a1 == 0 {
        assert(low[i] == base[i]);
    } else {
        lemma_blended_at_zero(s, d);
        lemma_blended_monotone(s, d, 0, a1);
        lemma_blended_monotone(s, d, a1, a2);
        lemma_blended_monotone(s, d, a2, 255);
        assert(s * 255 + d * (255 - 255) == 255 * s) by (nonlinear_arith);
        lemma_fundamental_div_mod_converse(2 * (255 * s) + 255, 510, s, 255);
        assert(blended_channel(s, d, 255) == s);
        assert(0 <= blended_channel(s, d, a1) <= 255);
        assert(0 <= blended_channel(s, d, a2) <= 255);
        assert(low[i] as int == blended_channel(s, d, a1));
        assert(high[i] as int == blended_channel(s, d, a2));
    }
}

/// Compositing is deterministic: equal bases, logos and parameters give
/// byte-identical results.
pub proof fn lemma_composite_deterministic(
    base1: Seq<u8>,
    base2: Seq<u8>,
    bw: int,
    bh: int,
    logo1: Seq<u8>,
    logo2: Seq<u8>,
    lw: int,
    lh: int,
    pos: Position,
    margin: int,
    frac: int,
    opacity: int,
)
    requires
        base1 == base2,
        logo1 == logo2,
    ensures
        composite_spec(base1, bw, bh, logo1, lw, lh, pos, margin, frac, opacity) == composite_spec(
            base2,
            bw,
            bh,
            logo2,
            lw,
            lh,
            pos,
            margin,
            frac,
            opacity,
        ),
{
}

} // verus!
