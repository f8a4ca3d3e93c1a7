//! Slanted text.
//!
//! A row of a slanted glyph moves to the right by one GUI pixel, less a quarter of its distance from
//! the top of the line. Between the first row of the glyph and its end this is interpolated, with
//! single-precision numbers.

use vstd::prelude::*;
use crate::minecraft::font::{Glyph, GlyphView};
use crate::minecraft::render::draw::BASELINE;
use crate::minecraft::render::glyphs;
use crate::minecraft::render::glyphs::block;
use crate::minecraft::render::options::MAX_SCALE;
use crate::minecraft::render::single;
use crate::minecraft::render::single::{between, interpolate, round, single, to_whole, whole, UNIT};

verus! {

/// A length of `n` pixels of a glyph in GUI pixels.
pub open spec fn gui_length(n: int, blk: int, scale: int) -> int {
    single(single(n * blk, 1) * UNIT, scale as nat)
}

/// How far a slanted glyph moves to the right at a distance from the top of the line, in GUI pixels.
pub open spec fn slant_at(distance: int) -> int {
    single(UNIT - single(distance, 4), 1)
}

/// Which part of a glyph lies above a row.
pub open spec fn part_above(row: int, height: int) -> int {
    if height == 0 {
        0
    } else {
        single(row * UNIT, height as nat)
    }
}

/// The distance of a glyph from the top of the line, in GUI pixels.
pub open spec fn glyph_start(g: GlyphView, scale: int) -> int {
    single(
        BASELINE * UNIT - gui_length(
            g.ascent as int,
            glyphs::block_of(g.unifont, scale),
            scale,
        ),
        1,
    )
}

/// The distance of the end of a glyph from the top of the line, in GUI pixels.
pub open spec fn glyph_end(g: GlyphView, scale: int) -> int {
    single(
        glyph_start(g, scale) + gui_length(
            g.height as int,
            glyphs::block_of(g.unifont, scale),
            scale,
        ),
        1,
    )
}

/// How far a row of a slanted glyph moves to the right, in GUI pixels.
pub open spec fn slant(g: GlyphView, row: int, scale: int) -> int {
    between(
        slant_at(glyph_start(g, scale)),
        slant_at(glyph_end(g, scale)),
        part_above(row, g.height as int),
    )
}

/// How far a row of a slanted glyph moves to the right, in pixels.
pub open spec fn shear(g: GlyphView, row: int, scale: int) -> int {
    if scale == 0 {
        0
    } else {
        whole(single(slant(g, row, scale) * scale, 1))
    }
}

proof fn lemma_scaled_bound(v: int, scale: int, low: int, high: int)
    requires
        0 < scale,
        low * scale <= v * scale <= high * scale,
    ensures
        low <= v <= high,
{
    assert(low <= v) by (nonlinear_arith)
        requires
            0 < scale,
            low * scale <= v * scale,
    ;
    assert(v <= high) by (nonlinear_arith)
        requires
            0 < scale,
            v * scale <= high * scale,
    ;
}

proof fn lemma_gui_length(n: int, blk: int, scale: int)
    requires
        0 <= n <= 255,
        0 <= blk <= scale,
        0 < scale <= MAX_SCALE,
    ensures
        0 <= n * blk <= 255 * scale,
        -scale <= single(n * blk, 1) <= 256 * scale,
        -0x20_0000_0000 * scale <= gui_length(n, blk, scale) * scale - n * blk * UNIT
            <= 0x20_0000_0000 * scale,
        -UNIT <= gui_length(n, blk, scale) <= 256 * UNIT,
{
    let x = n * blk;
    assert(0 <= x <= 255 * scale) by (nonlinear_arith)
        requires
            0 <= n <= 255,
            0 <= blk <= scale,
            x == n * blk,
    ;
    let a = single(x, 1);
    if 256 * scale >= 0x80_0000 {
        single::rounding_is_small(x, 1, (256 * scale) as nat);
    } else {
        single::short_numbers_are_kept(x);
    }
    assert(-scale <= 0x1_0000 * (a - x) <= scale);
    let most = 256 * UNIT as int;
    assert(-(scale * most) <= a * UNIT <= scale * most);
    single::rounding_is_small(a * UNIT, scale as nat, most as nat);
    let r = gui_length(n, blk, scale);
    assert(scale * most == 0x1000_0000_0000_0000 * scale);
    assert(-0x10_0000_0000 * scale <= r * scale - a * UNIT <= 0x10_0000_0000 * scale);
    assert(-0x10_0000_0000 * scale <= (a - x) * UNIT <= 0x10_0000_0000 * scale);
    assert((a - x) * UNIT == a * UNIT - x * UNIT);
    lemma_scaled_bound(r, scale, -UNIT as int, 256 * UNIT as int);
}

proof fn lemma_glyph_start(g: GlyphView, scale: int)
    requires
        0 < scale <= MAX_SCALE,
    ensures
        ({
            let x = g.ascent * glyphs::block_of(g.unifont, scale);
            let e = glyph_start(g, scale) * scale - (7 * scale - x) * UNIT;
            -0x30_0000_0000 * scale <= e <= 0x30_0000_0000 * scale
        }),
        -250 * UNIT <= glyph_start(g, scale) <= 9 * UNIT,
{
    let blk = glyphs::block_of(g.unifont, scale);
    let x = g.ascent * blk;
    lemma_gui_length(g.ascent as int, blk, scale);
    let a = gui_length(g.ascent as int, blk, scale);
    let n = BASELINE * UNIT - a;
    single::rounding_is_small(n, 1, (256 * UNIT) as nat);
    let d = glyph_start(g, scale) - n;
    assert(-0x10_0000_0000 <= d <= 0x10_0000_0000);
    assert(-0x10_0000_0000 * scale <= d * scale <= 0x10_0000_0000 * scale) by (nonlinear_arith)
        requires
            -0x10_0000_0000 <= d <= 0x10_0000_0000,
            0 < scale,
    ;
    assert((d + 7 * UNIT - a) * scale == d * scale + 7 * UNIT * scale - a * scale)
        by (nonlinear_arith);
    assert((7 * scale - x) * UNIT == 7 * UNIT * scale - x * UNIT);
}

proof fn lemma_glyph_end(g: GlyphView, scale: int)
    requires
        0 < scale <= MAX_SCALE,
    ensures
        ({
            let blk = glyphs::block_of(g.unifont, scale);
            let e = glyph_end(g, scale) * scale - (7 * scale - g.ascent * blk + g.height * blk)
                * UNIT;
            -0x80_0000_0000 * scale <= e <= 0x80_0000_0000 * scale
        }),
        -252 * UNIT <= glyph_end(g, scale) <= 266 * UNIT,
{
    let blk = glyphs::block_of(g.unifont, scale);
    let x = g.ascent * blk;
    let y = g.height * blk;
    lemma_glyph_start(g, scale);
    lemma_gui_length(g.height as int, blk, scale);
    let u = glyph_start(g, scale);
    let h = gui_length(g.height as int, blk, scale);
    single::rounding_is_small(u + h, 1, (512 * UNIT) as nat);
    let d = glyph_end(g, scale) - (u + h);
    assert(-0x20_0000_0000 <= d <= 0x20_0000_0000);
    assert(-0x20_0000_0000 * scale <= d * scale <= 0x20_0000_0000 * scale) by (nonlinear_arith)
        requires
            -0x20_0000_0000 <= d <= 0x20_0000_0000,
            0 < scale,
    ;
    assert((d + (u + h)) * scale == d * scale + u * scale + h * scale) by (nonlinear_arith);
    assert((7 * scale - x + y) * UNIT == (7 * scale - x) * UNIT + y * UNIT);
}

proof fn lemma_slant_at(d: int)
    requires
        -280 * UNIT <= d <= 280 * UNIT,
    ensures
        -75 * UNIT <= slant_at(d) <= 75 * UNIT,
        -0x80_0000_0000 <= 4 * slant_at(d) - (4 * UNIT - d) <= 0x80_0000_0000,
        -72 * UNIT <= single(d, 4) <= 72 * UNIT,
{
    single::rounding_is_small(d, 4, (128 * UNIT) as nat);
    let q = single(d, 4);
    single::rounding_is_small(UNIT - q, 1, (128 * UNIT) as nat);
}

proof fn lemma_part_above(row: int, height: int)
    requires
        0 <= row <= height <= 255,
    ensures
        0 <= part_above(row, height) <= 2 * UNIT,
        height > 0 ==> -0x1000_0000 * height <= part_above(row, height) * height - row * UNIT
            <= 0x1000_0000 * height,
{
    if height > 0 {
        assert(0 <= row * UNIT <= height * UNIT);
        single::rounding_is_small(row * UNIT, height as nat, UNIT as nat);
        let t = part_above(row, height);
        assert(t >= 0);
        assert(0 * height <= t * height) by (nonlinear_arith)
            requires
                t >= 0,
                height > 0,
        ;
        assert(t * height - row * UNIT <= 0x1000_0000 * height);
        assert(t * height <= 2 * UNIT * height) by (nonlinear_arith)
            requires
                t * height - row * UNIT <= 0x1000_0000 * height,
                row <= height,
                height > 0,
                UNIT == 0x10_0000_0000_0000,
        ;
        lemma_scaled_bound(t, height, 0, 2 * UNIT as int);
    }
}

/// How far a row of a slanted glyph moves to the right.
pub fn italic_shear(glyph: &Glyph, row: u32, scale: u32) -> (r: i64)
    requires
        scale <= MAX_SCALE,
        row <= glyph.height,
    ensures
        r == shear(glyph.model(), row as int, scale as int),
        -0x1_0000_0000 <= r <= 0x1_0000_0000,
{
    if scale == 0 {
        return 0;
    }
    let ghost g = glyph.model();
    let s: u128 = scale as u128;
    let blk: u32 = block(glyph, scale);
    proof {
        lemma_gui_length(g.ascent as int, blk as int, scale as int);
        lemma_gui_length(g.height as int, blk as int, scale as int);
        lemma_glyph_start(g, scale as int);
        lemma_glyph_end(g, scale as int);
        lemma_slant_at(glyph_start(g, scale as int));
        lemma_slant_at(glyph_end(g, scale as int));
        lemma_part_above(row as int, g.height as int);
    }
    let ascent = round(round(glyph.ascent as i128 * blk as i128, 1) * UNIT, s);
    let height = round(round(glyph.height as i128 * blk as i128, 1) * UNIT, s);
    let start = round(BASELINE as i128 * UNIT - ascent, 1);
    let end = round(start + height, 1);
    let top = round(UNIT - round(start, 4), 1);
    let bottom = round(UNIT - round(end, 4), 1);
    let t: i128 = if glyph.height == 0 {
        0
    } else {
        round(row as i128 * UNIT, glyph.height as u128)
    };
    let gui = interpolate(top, bottom, t);
    proof {
        let most = 1280 * UNIT * scale as int;
        assert(1280 * UNIT <= most <= 1280 * UNIT * MAX_SCALE) by (nonlinear_arith)
            requires
                most == 1280 * UNIT * scale as int,
                0 < scale <= MAX_SCALE,
                UNIT > 0,
        ;
        assert(-most <= gui * scale <= most) by (nonlinear_arith)
            requires
                -1152 * UNIT <= gui <= 1152 * UNIT,
                most == 1280 * UNIT * scale,
                0 <= scale,
                UNIT > 0,
        ;
        single::rounding_is_small(gui * scale, 1, most as nat);
    }
    let v = round(gui * scale as i128, 1);
    to_whole(v) as i64
}

// ---- laws ----

/// Four times the movement to the right of a row without any rounding, in pixels.
pub open spec fn exact_quarters(g: GlyphView, row: int, scale: int) -> int {
    4 * scale - (BASELINE * scale - (g.ascent - row) * glyphs::block_of(g.unifont, scale))
}

proof fn lemma_moved(d: int, scale: int, x: int, slack: int)
    requires
        0 < scale,
        -280 * UNIT <= d <= 280 * UNIT,
        -(slack * scale) <= d * scale - x * UNIT <= slack * scale,
    ensures
        ({
            let e = 4 * slant_at(d) * scale - (4 * scale - x) * UNIT;
            -((slack + 0x80_0000_0000) * scale) <= e <= (slack + 0x80_0000_0000) * scale
        }),
{
    lemma_slant_at(d);
    let v = slant_at(d);
    let e = 4 * v - (4 * UNIT - d);
    assert(-(0x80_0000_0000 * scale) <= e * scale <= 0x80_0000_0000 * scale) by (nonlinear_arith)
        requires
            -0x80_0000_0000 <= e <= 0x80_0000_0000,
            0 < scale,
    ;
    assert(4 * v * scale == e * scale + 4 * UNIT * scale - d * scale) by (nonlinear_arith)
        requires
            e == 4 * v - (4 * UNIT - d),
    ;
    assert((4 * scale - x) * UNIT == 4 * UNIT * scale - x * UNIT) by (nonlinear_arith);
    assert((slack + 0x80_0000_0000) * scale == slack * scale + 0x80_0000_0000 * scale)
        by (nonlinear_arith);
}

/// A product of two numbers that are nearly known.
proof fn lemma_product(
    diff: int,
    t: int,
    prod: int,
    scale: int,
    h: int,
    blk: int,
    row: int,
    e1: int,
    e2: int,
    e3: int,
)
    requires
        0 < scale,
        0 <= blk <= scale,
        0 < h <= 16,
        0 <= row <= h,
        0 <= t <= 2 * UNIT,
        4 * diff * scale == -(h * blk) * UNIT + e1,
        t * h == row * UNIT + e2,
        prod * UNIT == diff * t + e3,
        -0x400_0000_0000 * scale <= e1 <= 0x400_0000_0000 * scale,
        -0x1000_0000 * h <= e2 <= 0x1000_0000 * h,
        -0x20_0000_0000 * UNIT <= e3 <= 0x20_0000_0000 * UNIT,
    ensures
        -0x1000_0000_0000 * scale <= 4 * prod * scale + blk * row * UNIT <= 0x1000_0000_0000 * scale,
{
    let u = UNIT as int;
    let uh = u * h;
    let sum = 4 * prod * scale + blk * row * u;
    let f1 = e1 * (t * h);
    let f2 = (h * blk) * u * e2;
    let f3 = 4 * scale * h * e3;
    assert(uh > 0) by (nonlinear_arith)
        requires
            uh == u * h,
            u > 0,
            h > 0,
    ;
    let k = -(h * blk) * u;
    let c = 4 * scale * h;
    assert((4 * prod * scale + blk * row * u) * uh == 4 * prod * scale * uh + blk * row * u * uh)
        by (nonlinear_arith);
    assert(4 * prod * scale * (u * h) == 4 * scale * h * (prod * u)) by (nonlinear_arith);
    assert(c * (diff * t + e3) == c * (diff * t) + c * e3) by (nonlinear_arith);
    assert(4 * scale * h * (diff * t) == (4 * diff * scale) * (t * h)) by (nonlinear_arith);
    assert((k + e1) * (t * h) == k * (t * h) + e1 * (t * h)) by (nonlinear_arith);
    assert(k * (row * u + e2) == k * (row * u) + k * e2) by (nonlinear_arith);
    assert(-(h * blk) * u * e2 == -((h * blk) * u * e2)) by (nonlinear_arith);
    assert(blk * row * u * (u * h) == -(-(h * blk) * u * (row * u))) by (nonlinear_arith);
    assert(sum * uh == f3 - f2 + f1);
    let w = scale * uh;
    assert(0 <= t * h <= 2 * uh) by (nonlinear_arith)
        requires
            0 <= t <= 2 * u,
            0 < h,
            uh == u * h,
    ;
    assert(-0x800_0000_0000 * w <= f1 <= 0x800_0000_0000 * w) by (nonlinear_arith)
        requires
            f1 == e1 * (t * h),
            -0x400_0000_0000 * scale <= e1 <= 0x400_0000_0000 * scale,
            0 <= t * h <= 2 * uh,
            w == scale * uh,
            0 < scale,
    ;
    assert(0 <= (h * blk) * u <= 16 * scale * u) by (nonlinear_arith)
        requires
            0 < h <= 16,
            0 <= blk <= scale,
            0 < u,
    ;
    assert(-0x1_0000_0000 * w <= f2 <= 0x1_0000_0000 * w) by (nonlinear_arith)
        requires
            f2 == ((h * blk) * u) * e2,
            0 <= (h * blk) * u <= 16 * scale * u,
            -0x1000_0000 * h <= e2 <= 0x1000_0000 * h,
            w == scale * uh,
            uh == u * h,
            0 < h,
            0 < scale,
            0 < u,
    ;
    assert(-0x80_0000_0000 * w <= f3 <= 0x80_0000_0000 * w) by (nonlinear_arith)
        requires
            f3 == 4 * scale * h * e3,
            -0x20_0000_0000 * u <= e3 <= 0x20_0000_0000 * u,
            w == scale * uh,
            uh == u * h,
            0 < h,
            0 < scale,
    ;
    assert(0x1000_0000_0000 * w == (0x1000_0000_0000 * scale) * uh) by (nonlinear_arith)
        requires
            w == scale * uh,
    ;
    assert(w >= 0) by (nonlinear_arith)
        requires
            w == scale * uh,
            0 < scale,
            0 < uh,
    ;
    assert(-(0x1000_0000_0000 * scale) * uh == -((0x1000_0000_0000 * scale) * uh))
        by (nonlinear_arith);
    lemma_scaled_bound(sum, uh, -(0x1000_0000_0000 * scale), 0x1000_0000_0000 * scale);
}

/// How far the first row and the end of a glyph move, nearly.
proof fn lemma_ends(g: GlyphView, scale: int)
    requires
        0 < scale <= MAX_SCALE,
    ensures
        ({
            let blk = glyphs::block_of(g.unifont, scale);
            let x = g.ascent * blk;
            let top = slant_at(glyph_start(g, scale));
            let bottom = slant_at(glyph_end(g, scale));
            let e1 = 4 * single(bottom - top, 1) * scale - (-(g.height * blk) * UNIT);
            &&& -75 * UNIT <= top <= 75 * UNIT
            &&& -75 * UNIT <= bottom <= 75 * UNIT
            &&& -151 * UNIT <= single(bottom - top, 1) <= 151 * UNIT
            &&& -0xB0_0000_0000 * scale <= 4 * top * scale - (x - 3 * scale) * UNIT
                <= 0xB0_0000_0000 * scale
            &&& -0x400_0000_0000 * scale <= e1 <= 0x400_0000_0000 * scale
        }),
{
    let blk = glyphs::block_of(g.unifont, scale);
    let x = g.ascent * blk;
    let y = g.height * blk;
    lemma_glyph_start(g, scale);
    lemma_glyph_end(g, scale);
    let start = glyph_start(g, scale);
    let end = glyph_end(g, scale);
    lemma_moved(start, scale, 7 * scale - x, 0x30_0000_0000);
    lemma_moved(end, scale, 7 * scale - x + y, 0x80_0000_0000);
    lemma_slant_at(start);
    lemma_slant_at(end);
    let top = slant_at(start);
    let bottom = slant_at(end);
    single::rounding_is_small(bottom - top, 1, (256 * UNIT) as nat);
    let d = single(bottom - top, 1) - (bottom - top);
    assert(-0x10_0000_0000 <= d <= 0x10_0000_0000);
    assert(-0x40_0000_0000 * scale <= 4 * d * scale <= 0x40_0000_0000 * scale) by (nonlinear_arith)
        requires
            -0x10_0000_0000 <= d <= 0x10_0000_0000,
            0 < scale,
    ;
    assert(4 * (d + (bottom - top)) * scale == 4 * d * scale + 4 * bottom * scale - 4 * top * scale)
        by (nonlinear_arith);
    assert((4 * scale - (7 * scale - x)) * UNIT == (x - 3 * scale) * UNIT);
    assert((4 * scale - (7 * scale - x + y)) * UNIT == (x - 3 * scale) * UNIT - y * UNIT);
    assert(-y * UNIT == -(y * UNIT));
}

/// The movement of a row before it is rounded to a whole pixel, nearly.
proof fn lemma_slant_near(g: GlyphView, row: int, scale: int)
    requires
        0 < scale <= MAX_SCALE,
        0 <= row < g.height <= 16,
    ensures
        -0x4000_0000_0000 * scale <= 4 * single(slant(g, row, scale) * scale, 1) - exact_quarters(
            g,
            row,
            scale,
        ) * UNIT <= 0x4000_0000_0000 * scale,
{
    let blk = glyphs::block_of(g.unifont, scale);
    let x = g.ascent * blk;
    let h = g.height as int;
    let top = slant_at(glyph_start(g, scale));
    let bottom = slant_at(glyph_end(g, scale));
    let diff = single(bottom - top, 1);
    let t = part_above(row, h);
    lemma_ends(g, scale);
    lemma_part_above(row, h);
    assert(-302 * UNIT * UNIT <= diff * t <= 302 * UNIT * UNIT) by (nonlinear_arith)
        requires
            -151 * UNIT <= diff <= 151 * UNIT,
            0 <= t <= 2 * UNIT,
            UNIT > 0,
    ;
    single::rounding_is_small(diff * t, UNIT as nat, (512 * UNIT) as nat);
    let prod = single(diff * t, UNIT as nat);
    assert(-303 * UNIT <= prod <= 303 * UNIT);
    let e1 = 4 * diff * scale - (-(h * blk) * UNIT);
    let e2 = t * h - row * UNIT;
    let e3 = prod * UNIT - diff * t;
    lemma_product(diff, t, prod, scale, h, blk, row, e1, e2, e3);
    let gui = slant(g, row, scale);
    single::rounding_is_small(top + prod, 1, (512 * UNIT) as nat);
    let d = gui - (top + prod);
    assert(-0x20_0000_0000 <= d <= 0x20_0000_0000);
    assert(-0x80_0000_0000 * scale <= 4 * d * scale <= 0x80_0000_0000 * scale) by (nonlinear_arith)
        requires
            -0x20_0000_0000 <= d <= 0x20_0000_0000,
            0 < scale,
    ;
    assert(4 * (d + (top + prod)) * scale == 4 * d * scale + 4 * top * scale + 4 * prod * scale)
        by (nonlinear_arith);
    assert((g.ascent - row) * blk == x - blk * row) by (nonlinear_arith)
        requires
            x == g.ascent * blk,
    ;
    let e = exact_quarters(g, row, scale);
    assert(e * UNIT == (x - 3 * scale) * UNIT - blk * row * UNIT);
    assert(-0x2000_0000_0000 * scale <= 4 * gui * scale - e * UNIT <= 0x2000_0000_0000 * scale);
    let most = 512 * UNIT * scale;
    assert(-most <= gui * scale <= most && most >= 512 * UNIT) by (nonlinear_arith)
        requires
            -400 * UNIT <= gui <= 400 * UNIT,
            most == 512 * UNIT * scale,
            0 < scale,
            UNIT > 0,
    ;
    single::rounding_is_small(gui * scale, 1, most as nat);
    assert(4 * gui * scale == 4 * (gui * scale)) by (nonlinear_arith);
}

/// A row of a slanted glyph moves to a whole pixel that is nearest to the exact place: only where
/// two are equally near does the precision of the numbers decide. This holds below an enlargement
/// of sixty-four.
pub proof fn rows_move_to_a_nearest_pixel(g: GlyphView, row: int, scale: int)
    requires
        0 < scale < 64,
        0 <= row < g.height <= 16,
    ensures
        -2 <= 4 * shear(g, row, scale) - exact_quarters(g, row, scale) <= 2,
{
    lemma_slant_near(g, row, scale);
}

/// A row of a slanted glyph moves to the left by no more than five GUI pixels.
pub proof fn rows_move_little_to_the_left(g: GlyphView, row: int, scale: int)
    requires
        0 < scale <= MAX_SCALE,
        0 <= row < g.height <= 16,
    ensures
        shear(g, row, scale) >= -5 * scale,
{
    let blk = glyphs::block_of(g.unifont, scale);
    lemma_slant_near(g, row, scale);
    assert((g.ascent - row) * blk >= -15 * scale) by (nonlinear_arith)
        requires
            0 <= g.ascent,
            0 <= row <= 15,
            0 <= blk <= scale,
    ;
    assert(exact_quarters(g, row, scale) >= -18 * scale);
    if scale < 64 {
        rows_move_to_a_nearest_pixel(g, row, scale);
    }
}

} // verus!
