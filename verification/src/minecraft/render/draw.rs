//! Drawing glyphs, lines and blocks of text.
//!
//! A line of text is nine GUI pixels high, its baseline lies seven below its top. The shadow of the
//! whole line is drawn first, one glyph pixel to the right and below, in a quarter of the colour.

use vstd::prelude::*;
use crate::minecraft::component;
use crate::minecraft::component::{ResolvedStyle, Span, SpanView};
use crate::minecraft::font::{Glyph, GlyphSource, GlyphView, VanillaFont};
use crate::minecraft::render::canvas;
use crate::minecraft::render::canvas::{Canvas, Picture, Rgba};
use crate::minecraft::render::glyphs;
use crate::minecraft::render::glyphs::{block, Placed, PlacedView};
use crate::minecraft::render::layout;
use crate::minecraft::render::layout::MAX_CHARS;
use crate::minecraft::render::options;
use crate::minecraft::render::options::{adjust, RenderOptions, MAX_SCALE};
use crate::minecraft::render::slant;
use crate::minecraft::render::slant::{italic_shear, shear};
use crate::minecraft::text;

verus! {

/// The height of a line.
pub const LINE_HEIGHT: u32 = 9;

/// The distance from the top of a line to its baseline.
pub const BASELINE: u32 = 7;

/// The largest distance from the origin at which text may be drawn.
pub const MAX_TEXT_COORD: i64 = 0x0800_0000_0000_0000;

/// How text is drawn: its font, its look, and the colour where none is given.
pub struct Look {
    pub font: VanillaFont,
    pub opts: RenderOptions,
    pub fg: (u8, u8, u8),
}

/// How text is drawn, in memory.
#[derive(Clone, Copy)]
pub struct Ctx<'a> {
    pub font: &'a VanillaFont,
    pub opts: RenderOptions,
    pub fg: (u8, u8, u8),
}

impl<'a> Ctx<'a> {
    /// How text is drawn.
    pub open spec fn look(self) -> Look {
        Look { font: *self.font, opts: self.opts, fg: self.fg }
    }

    /// The font can be drawn, at this enlargement.
    pub open spec fn wf(self) -> bool {
        self.font.wf() && self.opts.scale <= MAX_SCALE
    }
}

// ---- colours ----

/// The colour of text in a style.
pub open spec fn text_color(style: ResolvedStyle, look: Look) -> Rgba {
    let c = match options::adjusted(style.color, look.opts.target, look.opts.old_color_policy) {
        Some(x) => x.value(),
        None => look.fg,
    };
    canvas::solid(c.0, c.1, c.2)
}

/// The colour of a shadow.
pub open spec fn darkened(c: Rgba) -> Rgba {
    Rgba { r: (c.r / 4) as u8, g: (c.g / 4) as u8, b: (c.b / 4) as u8, a: c.a }
}

/// The colour of text in a style.
fn resolve_fg(style: &ResolvedStyle, ctx: &Ctx) -> (r: Rgba)
    requires
        component::style_ok(*style),
    ensures
        r == text_color(*style, ctx.look()),
{
    match adjust(style.color, &ctx.opts) {
        Some(c) => {
            let (r, g, b) = c.rgb();
            Rgba { r, g, b, a: 255 }
        },
        None => {
            let (r, g, b) = ctx.fg;
            Rgba { r, g, b, a: 255 }
        },
    }
}

/// The colour of a shadow.
fn shadow_of(c: Rgba) -> (r: Rgba)
    ensures
        r == darkened(c),
{
    Rgba { r: c.r / 4, g: c.g / 4, b: c.b / 4, a: c.a }
}

// ---- obfuscated text ----

/// The number that picks a glyph for the character `ci` of the line `li`.
pub open spec fn salted(seed: u64, li: nat, ci: nat) -> u64 {
    let a = ((li * 0x9E37_79B9_7F4A_7C15) % 0x1_0000_0000_0000_0000) as u64;
    let b = ((ci * 0xD1B5_4A32_D192_ED03) % 0x1_0000_0000_0000_0000) as u64;
    let x = seed ^ a ^ b;
    let y = x ^ (x >> 30);
    let z = ((y * 0xBF58_476D_1CE4_E5B9) % 0x1_0000_0000_0000_0000) as u64;
    z ^ (z >> 27)
}

/// The number that picks a glyph for the character `ci` of the line `li`.
pub fn salt(seed: u64, li: usize, ci: usize) -> (r: u64)
    ensures
        r == salted(seed, li as nat, ci as nat),
{
    let a: u64 = (li as u64).wrapping_mul(0x9E37_79B9_7F4A_7C15);
    let b: u64 = (ci as u64).wrapping_mul(0xD1B5_4A32_D192_ED03);
    let x: u64 = seed ^ a ^ b;
    let y: u64 = x ^ (x >> 30);
    let z: u64 = y.wrapping_mul(0xBF58_476D_1CE4_E5B9);
    z ^ (z >> 27)
}

/// The characters whose glyphs stand in for obfuscated ones of the default font.
pub open spec fn narrow_stand_ins() -> Seq<char> {
    "ABCDEFGHJKLMNPQRSTUVWXYZ23456789#%&@"@
}

/// The characters whose glyphs stand in for obfuscated ones of Unifont.
pub open spec fn wide_stand_ins() -> Seq<char> {
    "你好世界中文字符森林风云"@
}

/// The glyph that is drawn for an obfuscated one.
pub open spec fn scrambled(f: VanillaFont, g: GlyphView, salt: u64) -> GlyphView {
    let chars = if g.unifont {
        wide_stand_ins()
    } else {
        narrow_stand_ins()
    };
    match f.lookup(chars[(salt as int) % (chars.len() as int)]) {
        Some(x) => x,
        None => g,
    }
}

/// The glyph that is drawn for an obfuscated one.
fn scramble(f: &VanillaFont, orig: &Glyph, salt: u64) -> (r: Glyph)
    requires
        f.wf(),
        orig.model().wf(),
    ensures
        r.model() == scrambled(*f, orig.model(), salt),
        r.model().wf(),
{
    let chars = if orig.unifont {
        text::chars_of("你好世界中文字符森林风云")
    } else {
        text::chars_of("ABCDEFGHJKLMNPQRSTUVWXYZ23456789#%&@")
    };
    proof {
        reveal_strlit("你好世界中文字符森林风云");
        reveal_strlit("ABCDEFGHJKLMNPQRSTUVWXYZ23456789#%&@");
    }
    let i: usize = (salt % chars.len() as u64) as usize;
    match f.glyph(chars[i]) {
        Some(g) => g,
        None => *orig,
    }
}

// ---- glyphs ----

/// The square of a glyph's pixel covers the place, or that of its bold copy does.
pub open spec fn square_covers(
    g: GlyphView,
    style: ResolvedStyle,
    scale: int,
    left: int,
    top: int,
    col: int,
    row: int,
    x: int,
    y: int,
) -> bool {
    let blk = glyphs::block_of(g.unifont, scale);
    let sx = left + col * blk + (if style.italic {
        shear(g, row, scale)
    } else {
        0
    });
    let sy = top + row * blk;
    canvas::in_rect(x, y, sx, sy, blk, blk) || (style.bold && canvas::in_rect(
        x,
        y,
        sx + blk,
        sy,
        blk,
        blk,
    ))
}

/// A glyph at a place covers another place.
pub open spec fn glyph_covers(
    g: GlyphView,
    style: ResolvedStyle,
    scale: int,
    left: int,
    top: int,
    x: int,
    y: int,
) -> bool {
    exists|col: int, row: int| #[trigger]
        g.at(col, row) && square_covers(g, style, scale, left, top, col, row, x, y)
}

/// A character covers a place: its glyph does, or a line through it, three and a half GUI pixels
/// below the top of the line, or a line below it, eight below the top. `pen` is its left edge, `top` the top of its line, `off` its distance from there if it is a shadow.
pub open spec fn ink_covers(
    g: GlyphView,
    style: ResolvedStyle,
    advance: int,
    scale: int,
    pen: int,
    top: int,
    off: int,
    x: int,
    y: int,
) -> bool {
    let baseline = top + BASELINE * scale;
    ||| glyph_covers(
        g,
        style,
        scale,
        pen + off,
        baseline - g.ascent * glyphs::block_of(g.unifont, scale) + off,
        x,
        y,
    )
    ||| style.strikethrough && canvas::in_rect(
        x,
        y,
        pen + off,
        top + 7 * scale / 2 + off,
        advance,
        scale,
    )
    ||| style.underlined && canvas::in_rect(x, y, pen + off, top + 8 * scale + off, advance, scale)
}

/// The glyph that a character shows.
pub open spec fn drawn_glyph(p: PlacedView, look: Look, li: nat, ci: nat) -> GlyphView {
    if p.style.obfuscated {
        scrambled(look.font, p.glyph, salted(look.opts.obfuscate_seed, li, ci))
    } else {
        p.glyph
    }
}

/// A picture with a character, the one number `ci` of the line number `li`, or its shadow.
pub open spec fn with_glyph(
    pic: Picture,
    look: Look,
    pen: int,
    top: int,
    p: PlacedView,
    li: nat,
    ci: nat,
    is_shadow: bool,
) -> Picture {
    let scale = look.opts.scale as int;
    let g = drawn_glyph(p, look, li, ci);
    let c = text_color(p.style, look);
    let off = if is_shadow {
        glyphs::block_of(g.unifont, scale)
    } else {
        0
    };
    pic.painted(
        |x: int, y: int| ink_covers(g, p.style, p.advance, scale, pen, top, off, x, y),
        if is_shadow {
            darkened(c)
        } else {
            c
        },
    )
}

/// Some pixel of the glyph before the given one covers the place; rows come first.
spec fn covered_before(
    g: GlyphView,
    style: ResolvedStyle,
    scale: int,
    left: int,
    top: int,
    r: int,
    c: int,
    x: int,
    y: int,
) -> bool {
    exists|col: int, row: int| #[trigger]
        g.at(col, row) && (row < r || (row == r && col < c)) && square_covers(
            g,
            style,
            scale,
            left,
            top,
            col,
            row,
            x,
            y,
        )
}

proof fn lemma_covered_step(
    g: GlyphView,
    style: ResolvedStyle,
    scale: int,
    left: int,
    top: int,
    r: int,
    c: int,
    x: int,
    y: int,
)
    ensures
        covered_before(g, style, scale, left, top, r, c + 1, x, y) == (covered_before(
            g,
            style,
            scale,
            left,
            top,
            r,
            c,
            x,
            y,
        ) || (g.at(c, r) && square_covers(g, style, scale, left, top, c, r, x, y))),
{
    if covered_before(g, style, scale, left, top, r, c + 1, x, y) {
        let (col, row) = choose|col: int, row: int| #[trigger]
            g.at(col, row) && (row < r || (row == r && col < c + 1)) && square_covers(
                g,
                style,
                scale,
                left,
                top,
                col,
                row,
                x,
                y,
            );
        if row < r || col < c {
            assert(g.at(col, row));
        }
    }
    if covered_before(g, style, scale, left, top, r, c, x, y) {
        let (col, row) = choose|col: int, row: int| #[trigger]
            g.at(col, row) && (row < r || (row == r && col < c)) && square_covers(
                g,
                style,
                scale,
                left,
                top,
                col,
                row,
                x,
                y,
            );
        assert(g.at(col, row));
    }
}

proof fn lemma_covered_row(
    g: GlyphView,
    style: ResolvedStyle,
    scale: int,
    left: int,
    top: int,
    r: int,
    x: int,
    y: int,
)
    ensures
        covered_before(g, style, scale, left, top, r, g.width as int, x, y) == covered_before(
            g,
            style,
            scale,
            left,
            top,
            r + 1,
            0,
            x,
            y,
        ),
{
    if covered_before(g, style, scale, left, top, r + 1, 0, x, y) {
        let (col, row) = choose|col: int, row: int| #[trigger]
            g.at(col, row) && (row < r + 1 || (row == r + 1 && col < 0)) && square_covers(
                g,
                style,
                scale,
                left,
                top,
                col,
                row,
                x,
                y,
            );
        assert(g.at(col, row));
    }
    if covered_before(g, style, scale, left, top, r, g.width as int, x, y) {
        let (col, row) = choose|col: int, row: int| #[trigger]
            g.at(col, row) && (row < r || (row == r && col < g.width)) && square_covers(
                g,
                style,
                scale,
                left,
                top,
                col,
                row,
                x,
                y,
            );
        assert(g.at(col, row));
    }
}

proof fn lemma_covered_all(
    g: GlyphView,
    style: ResolvedStyle,
    scale: int,
    left: int,
    top: int,
    x: int,
    y: int,
)
    ensures
        covered_before(g, style, scale, left, top, g.height as int, 0, x, y) == glyph_covers(
            g,
            style,
            scale,
            left,
            top,
            x,
            y,
        ),
        !covered_before(g, style, scale, left, top, 0, 0, x, y),
{
    if glyph_covers(g, style, scale, left, top, x, y) {
        let (col, row) = choose|col: int, row: int| #[trigger]
            g.at(col, row) && square_covers(g, style, scale, left, top, col, row, x, y);
        assert(g.at(col, row));
    }
    if covered_before(g, style, scale, left, top, g.height as int, 0, x, y) {
        let (col, row) = choose|col: int, row: int| #[trigger]
            g.at(col, row) && (row < g.height || (row == g.height && col < 0)) && square_covers(
                g,
                style,
                scale,
                left,
                top,
                col,
                row,
                x,
                y,
            );
        assert(g.at(col, row));
    }
}

/// Draws a glyph with its top left corner at a place.
fn draw_body(
    img: &mut Canvas,
    glyph: &Glyph,
    style: &ResolvedStyle,
    scale: u32,
    left: i64,
    top: i64,
    c: Rgba,
)
    requires
        old(img).wf(),
        glyph.model().wf(),
        scale <= MAX_SCALE,
        -2 * MAX_TEXT_COORD <= left <= 2 * MAX_TEXT_COORD,
        -2 * MAX_TEXT_COORD <= top <= 2 * MAX_TEXT_COORD,
    ensures
        final(img).wf(),
        final(img)@ == old(img)@.painted(
            |x: int, y: int|
                glyph_covers(glyph.model(), *style, scale as int, left as int, top as int, x, y),
            c,
        ),
{
    let ghost g = glyph.model();
    let ghost s = scale as int;
    let ghost before = img@;
    let blk: u32 = block(glyph, scale);
    let h: u32 = glyph.height as u32;
    let w: u32 = glyph.width as u32;
    let mut row: u32 = 0;
    proof {
        assert forall|a: int, b: int| #[trigger]
            img@.px(a, b) == (if before.inside(a, b) && covered_before(
                g,
                *style,
                s,
                left as int,
                top as int,
                0,
                0,
                a,
                b,
            ) {
                c
            } else {
                before.px(a, b)
            }) by {
            lemma_covered_all(g, *style, s, left as int, top as int, a, b);
        }
    }
    while row < h
        invariant
            g == glyph.model(),
            g.wf(),
            s == scale,
            scale <= MAX_SCALE,
            blk == glyphs::block_of(g.unifont, s),
            h == g.height,
            w == g.width,
            -2 * MAX_TEXT_COORD <= left <= 2 * MAX_TEXT_COORD,
            -2 * MAX_TEXT_COORD <= top <= 2 * MAX_TEXT_COORD,
            img.wf(),
            img@.w == before.w,
            img@.h == before.h,
            row <= h,
            forall|a: int, b: int| #[trigger]
                img@.px(a, b) == (if before.inside(a, b) && covered_before(
                    g,
                    *style,
                    s,
                    left as int,
                    top as int,
                    row as int,
                    0,
                    a,
                    b,
                ) {
                    c
                } else {
                    before.px(a, b)
                }),
        decreases h - row,
    {
        let slant: i64 = if style.italic {
            italic_shear(glyph, row, scale)
        } else {
            0
        };
        let mut col: u32 = 0;
        while col < w
            invariant
                g == glyph.model(),
                g.wf(),
                s == scale,
                scale <= MAX_SCALE,
                blk == glyphs::block_of(g.unifont, s),
                h == g.height,
                w == g.width,
                -2 * MAX_TEXT_COORD <= left <= 2 * MAX_TEXT_COORD,
                -2 * MAX_TEXT_COORD <= top <= 2 * MAX_TEXT_COORD,
                img.wf(),
                img@.w == before.w,
                img@.h == before.h,
                row < h,
                col <= w,
                slant == (if style.italic {
                    shear(g, row as int, s)
                } else {
                    0
                }),
                -0x1_0000_0000 <= slant <= 0x1_0000_0000,
                forall|a: int, b: int| #[trigger]
                    img@.px(a, b) == (if before.inside(a, b) && covered_before(
                        g,
                        *style,
                        s,
                        left as int,
                        top as int,
                        row as int,
                        col as int,
                        a,
                        b,
                    ) {
                        c
                    } else {
                        before.px(a, b)
                    }),
            decreases w - col,
        {
            let ghost prior = img@;
            if glyph.pixel(col, row) {
                assert(0 <= col * blk <= 16 * MAX_SCALE) by (nonlinear_arith)
                    requires
                        0 <= col <= 16,
                        0 <= blk <= MAX_SCALE,
                ;
                assert(0 <= row * blk <= 16 * MAX_SCALE) by (nonlinear_arith)
                    requires
                        0 <= row <= 16,
                        0 <= blk <= MAX_SCALE,
                ;
                let gx: i64 = left + (col * blk) as i64 + slant;
                let gy: i64 = top + (row * blk) as i64;
                img.fill(gx, gy, blk, blk, c);
                if style.bold {
                    img.fill(gx + blk as i64, gy, blk, blk, c);
                }
            }
            proof {
                assert forall|a: int, b: int| #[trigger]
                    img@.px(a, b) == (if before.inside(a, b) && covered_before(
                        g,
                        *style,
                        s,
                        left as int,
                        top as int,
                        row as int,
                        col + 1,
                        a,
                        b,
                    ) {
                        c
                    } else {
                        before.px(a, b)
                    }) by {
                    assert(prior.px(a, b) == (if before.inside(a, b) && covered_before(
                        g,
                        *style,
                        s,
                        left as int,
                        top as int,
                        row as int,
                        col as int,
                        a,
                        b,
                    ) {
                        c
                    } else {
                        before.px(a, b)
                    }));
                    lemma_covered_step(
                        g,
                        *style,
                        s,
                        left as int,
                        top as int,
                        row as int,
                        col as int,
                        a,
                        b,
                    );
                }
            }
            col += 1;
        }
        proof {
            assert forall|a: int, b: int| #[trigger]
                img@.px(a, b) == (if before.inside(a, b) && covered_before(
                    g,
                    *style,
                    s,
                    left as int,
                    top as int,
                    row + 1,
                    0,
                    a,
                    b,
                ) {
                    c
                } else {
                    before.px(a, b)
                }) by {
                lemma_covered_row(g, *style, s, left as int, top as int, row as int, a, b);
            }
        }
        row += 1;
    }
    proof {
        let goal = before.painted(
            |x: int, y: int| glyph_covers(g, *style, s, left as int, top as int, x, y),
            c,
        );
        assert forall|a: int, b: int| #[trigger] img@.px(a, b) == goal.px(a, b) by {
            lemma_covered_all(g, *style, s, left as int, top as int, a, b);
        }
        canvas::lemma_same(img@, goal);
    }
}

/// Draws a character, or its shadow.
pub fn draw_glyph(
    img: &mut Canvas,
    ctx: &Ctx,
    pen: i64,
    top: i64,
    p: &Placed,
    li: usize,
    ci: usize,
    is_shadow: bool,
)
    requires
        old(img).wf(),
        ctx.wf(),
        glyphs::drawable(p.model()),
        -MAX_TEXT_COORD <= pen <= MAX_TEXT_COORD,
        -MAX_TEXT_COORD <= top <= MAX_TEXT_COORD,
    ensures
        final(img).wf(),
        final(img)@ == with_glyph(
            old(img)@,
            ctx.look(),
            pen as int,
            top as int,
            p.model(),
            li as nat,
            ci as nat,
            is_shadow,
        ),
{
    let s: u32 = ctx.opts.scale;
    let fg = resolve_fg(&p.style, ctx);
    let color = if is_shadow {
        shadow_of(fg)
    } else {
        fg
    };
    let glyph = if p.style.obfuscated {
        scramble(ctx.font, &p.glyph, salt(ctx.opts.obfuscate_seed, li, ci))
    } else {
        p.glyph
    };
    let ghost g = glyph.model();
    let blk: u32 = block(&glyph, s);
    let off: i64 = if is_shadow {
        blk as i64
    } else {
        0
    };
    let baseline: i64 = top + BASELINE as i64 * s as i64;
    assert(0 <= glyph.ascent * blk <= 255 * MAX_SCALE) by (nonlinear_arith)
        requires
            0 <= glyph.ascent <= 255,
            0 <= blk <= MAX_SCALE,
    ;
    let glyph_top: i64 = baseline - glyph.ascent as i64 * blk as i64 + off;
    let ghost before = img@;
    draw_body(img, &glyph, &p.style, s, pen + off, glyph_top, color);
    if p.style.strikethrough {
        img.fill(pen + off, top + 7 * s as i64 / 2 + off, p.advance as u32, s, color);
    }
    if p.style.underlined {
        img.fill(pen + off, top + 8 * s as i64 + off, p.advance as u32, s, color);
    }
    proof {
        canvas::lemma_same(
            img@,
            with_glyph(
                before,
                ctx.look(),
                pen as int,
                top as int,
                p.model(),
                li as nat,
                ci as nat,
                is_shadow,
            ),
        );
    }
}

// ---- lines ----

/// A picture with the first `n` characters of a line, or their shadows.
pub open spec fn with_pass(
    pic: Picture,
    look: Look,
    x0: int,
    top: int,
    line: Seq<PlacedView>,
    li: nat,
    n: nat,
    is_shadow: bool,
) -> Picture
    decreases n,
{
    if n == 0 {
        pic
    } else {
        with_glyph(
            with_pass(pic, look, x0, top, line, li, (n - 1) as nat, is_shadow),
            look,
            x0 + glyphs::width(line.take(n - 1)),
            top,
            line[n - 1],
            li,
            (n - 1) as nat,
            is_shadow,
        )
    }
}

/// A picture with a line of text, the shadows below the characters.
pub open spec fn with_line(
    pic: Picture,
    look: Look,
    x0: int,
    top: int,
    line: Seq<PlacedView>,
    li: nat,
) -> Picture {
    let ground = if look.opts.shadow {
        with_pass(pic, look, x0, top, line, li, line.len(), true)
    } else {
        pic
    };
    with_pass(ground, look, x0, top, line, li, line.len(), false)
}

/// A picture with the first `n` of several lines of text.
pub open spec fn with_lines(
    pic: Picture,
    look: Look,
    x: int,
    top: int,
    lines: Seq<Seq<PlacedView>>,
    n: nat,
) -> Picture
    decreases n,
{
    if n == 0 {
        pic
    } else {
        with_line(
            with_lines(pic, look, x, top, lines, (n - 1) as nat),
            look,
            x,
            top + (n - 1) * (LINE_HEIGHT * look.opts.scale),
            lines[n - 1],
            (n - 1) as nat,
        )
    }
}

/// A picture with a text, broken into lines.
pub open spec fn with_block(
    pic: Picture,
    look: Look,
    x: int,
    top: int,
    spans: Seq<SpanView>,
    max_width: int,
    max_lines: int,
) -> Picture {
    let lines = layout::laid_out(
        spans,
        look.font,
        max_width,
        max_lines,
        look.opts.scale as int,
    );
    with_lines(pic, look, x, top, lines, lines.len())
}

/// A picture with a line of text that ends at `right`.
pub open spec fn with_right(
    pic: Picture,
    look: Look,
    right: int,
    top: int,
    spans: Seq<SpanView>,
) -> Picture {
    let lines = layout::laid_out(spans, look.font, u32::MAX as int, 1, look.opts.scale as int);
    if lines.len() > 0 {
        with_line(pic, look, right - glyphs::width(lines[0]), top, lines[0], 0)
    } else {
        pic
    }
}

/// The largest distance from the origin at which a line may start.
pub const MAX_START: i64 = 0x0400_0000_0000_0000;

/// Draws the characters of a line, or their shadows.
fn draw_pass(
    img: &mut Canvas,
    ctx: &Ctx,
    x0: i64,
    top: i64,
    line: &Vec<Placed>,
    li: usize,
    is_shadow: bool,
)
    requires
        old(img).wf(),
        ctx.wf(),
        glyphs::line_ok(glyphs::line_view(line@)),
        line@.len() <= 4 * MAX_CHARS,
        -MAX_START <= x0 <= MAX_START,
        -MAX_TEXT_COORD <= top <= MAX_TEXT_COORD,
    ensures
        final(img).wf(),
        final(img)@.w == old(img)@.w,
        final(img)@.h == old(img)@.h,
        final(img)@ == with_pass(
            old(img)@,
            ctx.look(),
            x0 as int,
            top as int,
            glyphs::line_view(line@),
            li as nat,
            line@.len(),
            is_shadow,
        ),
{
    let ghost all = glyphs::line_view(line@);
    let ghost before = img@;
    let mut pen: i64 = x0;
    assert(all.take(0) =~= Seq::empty());
    for i in 0..line.len()
        invariant
            all == glyphs::line_view(line@),
            glyphs::line_ok(all),
            line@.len() <= 4 * MAX_CHARS,
            ctx.wf(),
            -MAX_START <= x0 <= MAX_START,
            -MAX_TEXT_COORD <= top <= MAX_TEXT_COORD,
            img.wf(),
            img@.w == before.w,
            img@.h == before.h,
            pen == x0 + glyphs::width(all.take(i as int)),
            x0 <= pen <= x0 + i * 0x1000_0000,
            img@ == with_pass(
                before,
                ctx.look(),
                x0 as int,
                top as int,
                all,
                li as nat,
                i as nat,
                is_shadow,
            ),
    {
        proof {
            assert(all.take(i + 1).drop_last() =~= all.take(i as int));
            assert(glyphs::drawable(all[i as int]));
        }
        draw_glyph(img, ctx, pen, top, &line[i], li, i, is_shadow);
        pen = pen + line[i].advance as i64;
    }
}

/// Draws a line of text.
pub fn draw_line(img: &mut Canvas, ctx: &Ctx, x0: i64, top: i64, line: &Vec<Placed>, li: usize)
    requires
        old(img).wf(),
        ctx.wf(),
        glyphs::line_ok(glyphs::line_view(line@)),
        line@.len() <= 4 * MAX_CHARS,
        -MAX_START <= x0 <= MAX_START,
        -MAX_TEXT_COORD <= top <= MAX_TEXT_COORD,
    ensures
        final(img).wf(),
        final(img)@.w == old(img)@.w,
        final(img)@.h == old(img)@.h,
        final(img)@ == with_line(
            old(img)@,
            ctx.look(),
            x0 as int,
            top as int,
            glyphs::line_view(line@),
            li as nat,
        ),
{
    if ctx.opts.shadow {
        draw_pass(img, ctx, x0, top, line, li, true);
    }
    draw_pass(img, ctx, x0, top, line, li, false);
}

/// Draws lines of text below each other.
pub fn draw_lines(img: &mut Canvas, ctx: &Ctx, x: i64, top: i64, lines: &Vec<Vec<Placed>>)
    requires
        old(img).wf(),
        ctx.wf(),
        layout::lines_ok(glyphs::lines_view(lines@)),
        layout::lines_within(glyphs::lines_view(lines@), 4 * MAX_CHARS),
        lines@.len() <= MAX_CHARS,
        -MAX_START <= x <= MAX_START,
        -MAX_START <= top <= MAX_START,
    ensures
        final(img).wf(),
        final(img)@.w == old(img)@.w,
        final(img)@.h == old(img)@.h,
        final(img)@ == with_lines(
            old(img)@,
            ctx.look(),
            x as int,
            top as int,
            glyphs::lines_view(lines@),
            lines@.len(),
        ),
{
    let ghost all = glyphs::lines_view(lines@);
    let ghost before = img@;
    let step: i64 = LINE_HEIGHT as i64 * ctx.opts.scale as i64;
    for i in 0..lines.len()
        invariant
            all == glyphs::lines_view(lines@),
            layout::lines_ok(all),
            layout::lines_within(all, 4 * MAX_CHARS),
            lines@.len() <= MAX_CHARS,
            ctx.wf(),
            step == LINE_HEIGHT * ctx.opts.scale,
            -MAX_START <= x <= MAX_START,
            -MAX_START <= top <= MAX_START,
            img.wf(),
            img@.w == before.w,
            img@.h == before.h,
            img@ == with_lines(before, ctx.look(), x as int, top as int, all, i as nat),
    {
        proof {
            assert(glyphs::line_ok(all[i as int]));
            assert(all[i as int].len() <= 4 * MAX_CHARS);
            assert(all[i as int].len() == lines@[i as int]@.len());
            assert(0 <= i * step <= MAX_CHARS * (9 * MAX_SCALE)) by (nonlinear_arith)
                requires
                    0 <= i <= MAX_CHARS,
                    0 <= step <= 9 * MAX_SCALE,
            ;
        }
        draw_line(img, ctx, x, top + i as i64 * step, &lines[i], i);
    }
}

/// Draws a text, broken into lines.
pub fn draw_block_dev(
    img: &mut Canvas,
    ctx: &Ctx,
    x: i64,
    top: i64,
    spans: &[Span],
    max_width: u32,
    max_lines: usize,
)
    requires
        old(img).wf(),
        ctx.wf(),
        component::spans_ok(component::span_views(spans@)),
        layout::char_count(component::span_views(spans@)) <= MAX_CHARS,
        -MAX_START <= x <= MAX_START,
        -MAX_START <= top <= MAX_START,
    ensures
        final(img).wf(),
        final(img)@.w == old(img)@.w,
        final(img)@.h == old(img)@.h,
        final(img)@ == with_block(
            old(img)@,
            ctx.look(),
            x as int,
            top as int,
            component::span_views(spans@),
            max_width as int,
            max_lines as int,
        ),
{
    let lines = layout::layout(ctx.font, spans, max_width, max_lines, ctx.opts.scale);
    proof {
        assert(glyphs::lines_view(lines@).len() == lines@.len());
        assert forall|i: int| 0 <= i < glyphs::lines_view(lines@).len() implies (
        #[trigger] glyphs::lines_view(lines@)[i]).len() <= 4 * MAX_CHARS by {}
    }
    draw_lines(img, ctx, x, top, &lines);
}

/// Draws a line of text that ends at `right`.
pub fn draw_right_dev(img: &mut Canvas, ctx: &Ctx, right: i64, top: i64, spans: &[Span])
    requires
        old(img).wf(),
        ctx.wf(),
        component::spans_ok(component::span_views(spans@)),
        layout::char_count(component::span_views(spans@)) <= MAX_CHARS,
        0 <= right <= MAX_START,
        -MAX_START <= top <= MAX_START,
    ensures
        final(img).wf(),
        final(img)@.w == old(img)@.w,
        final(img)@.h == old(img)@.h,
        final(img)@ == with_right(
            old(img)@,
            ctx.look(),
            right as int,
            top as int,
            component::span_views(spans@),
        ),
{
    let lines = layout::layout(ctx.font, spans, 0xFFFF_FFFF, 1, ctx.opts.scale);
    let ghost views = glyphs::lines_view(lines@);
    if lines.len() > 0 {
        proof {
            assert(glyphs::line_ok(views[0]));
            assert(views[0].len() <= 4 * MAX_CHARS);
            assert(views[0].len() == lines@[0]@.len());
        }
        proof {
            glyphs::lemma_width_drawable(views[0]);
        }
        let w: u64 = glyphs::line_width(&lines[0]);
        draw_line(img, ctx, right - w as i64, top, &lines[0], 0);
    }
}

// ---- laws ----

/// No glyph of the font reaches more than sixteen of its pixels above the line of writing.
pub open spec fn low_font(f: VanillaFont) -> bool {
    forall|ch: char| (#[trigger] f.lookup(ch)) matches Some(g) ==> g.ascent <= 16
}

/// The place lies so far to the left of a text, or above one in such a font, that the text does
/// not reach it.
pub open spec fn out_of_reach(look: Look, left: int, top: int, x: int, y: int) -> bool {
    let s = look.opts.scale as int;
    x < left - 5 * s || (low_font(look.font) && y < top - 9 * s)
}

proof fn lemma_square_reach(g: GlyphView, style: ResolvedStyle, scale: int, col: int, row: int)
    requires
        g.wf(),
        0 < scale <= MAX_SCALE,
        0 <= col,
        0 <= row < g.height,
    ensures
        0 <= glyphs::block_of(g.unifont, scale) <= scale,
        0 <= col * glyphs::block_of(g.unifont, scale),
        0 <= row * glyphs::block_of(g.unifont, scale),
        g.ascent <= 16 ==> g.ascent * glyphs::block_of(g.unifont, scale) <= 16 * scale,
        shear(g, row, scale) >= -5 * scale,
{
    let blk = glyphs::block_of(g.unifont, scale);
    let a = g.ascent as int;
    assert(0 <= col * blk) by (nonlinear_arith)
        requires
            0 <= col,
            0 <= blk,
    ;
    assert(0 <= row * blk) by (nonlinear_arith)
        requires
            0 <= row,
            0 <= blk,
    ;
    assert(a <= 16 ==> a * blk <= 16 * scale) by (nonlinear_arith)
        requires
            0 <= a,
            0 <= blk <= scale,
    ;
    slant::rows_move_little_to_the_left(g, row, scale);
}

proof fn lemma_glyph_reach(
    pic: Picture,
    look: Look,
    pen: int,
    top: int,
    p: PlacedView,
    li: nat,
    ci: nat,
    is_shadow: bool,
    x: int,
    y: int,
)
    requires
        look.font.wf(),
        0 < look.opts.scale <= MAX_SCALE,
        p == glyphs::placed(look.font, p.ch, p.style, look.opts.scale as int),
        out_of_reach(look, pen, top, x, y),
    ensures
        with_glyph(pic, look, pen, top, p, li, ci, is_shadow).px(x, y) == pic.px(x, y),
{
    let s = look.opts.scale as int;
    let g = drawn_glyph(p, look, li, ci);
    glyphs::lemma_placed_sized(look.font, p.ch, p.style, s);
    assert(g.wf());
    let blk = glyphs::block_of(g.unifont, s);
    let off = if is_shadow {
        blk
    } else {
        0
    };
    let glyph_top = top + BASELINE * s - g.ascent * blk + off;
    if low_font(look.font) {
        assert(g.ascent <= 16);
    }
    assert(!glyph_covers(g, p.style, s, pen + off, glyph_top, x, y)) by {
        if glyph_covers(g, p.style, s, pen + off, glyph_top, x, y) {
            let (col, row) = choose|col: int, row: int| #[trigger]
                g.at(col, row) && square_covers(
                    g,
                    p.style,
                    s,
                    pen + off,
                    glyph_top,
                    col,
                    row,
                    x,
                    y,
                );
            lemma_square_reach(g, p.style, s, col, row);
        }
    }
    assert(!ink_covers(g, p.style, p.advance, s, pen, top, off, x, y));
}

proof fn lemma_pass_reach(
    pic: Picture,
    look: Look,
    left: int,
    top: int,
    line: Seq<PlacedView>,
    li: nat,
    n: nat,
    is_shadow: bool,
    x: int,
    y: int,
)
    requires
        look.font.wf(),
        0 < look.opts.scale <= MAX_SCALE,
        layout::line_set(line, look.font, look.opts.scale as int),
        n <= line.len(),
        out_of_reach(look, left, top, x, y),
    ensures
        with_pass(pic, look, left, top, line, li, n, is_shadow).px(x, y) == pic.px(x, y),
        with_pass(pic, look, left, top, line, li, n, is_shadow).w == pic.w,
        with_pass(pic, look, left, top, line, li, n, is_shadow).h == pic.h,
    decreases n,
{
    if n > 0 {
        let m = (n - 1) as nat;
        lemma_pass_reach(pic, look, left, top, line, li, m, is_shadow, x, y);
        let before = line.take(m as int);
        assert forall|i: int| 0 <= i < before.len() implies glyphs::sized(
            #[trigger] before[i],
        ) by {
            assert(before[i] == line[i]);
            glyphs::lemma_placed_sized(
                look.font,
                line[i].ch,
                line[i].style,
                look.opts.scale as int,
            );
        }
        glyphs::lemma_width_bound(before);
        assert(line[m as int] == glyphs::placed(
            look.font,
            line[m as int].ch,
            line[m as int].style,
            look.opts.scale as int,
        ));
        lemma_glyph_reach(
            with_pass(pic, look, left, top, line, li, m, is_shadow),
            look,
            left + glyphs::width(before),
            top,
            line[m as int],
            li,
            m,
            is_shadow,
            x,
            y,
        );
    }
}

proof fn lemma_line_reach(
    pic: Picture,
    look: Look,
    left: int,
    top: int,
    line: Seq<PlacedView>,
    li: nat,
    x: int,
    y: int,
)
    requires
        look.font.wf(),
        0 < look.opts.scale <= MAX_SCALE,
        layout::line_set(line, look.font, look.opts.scale as int),
        out_of_reach(look, left, top, x, y),
    ensures
        with_line(pic, look, left, top, line, li).px(x, y) == pic.px(x, y),
        with_line(pic, look, left, top, line, li).w == pic.w,
        with_line(pic, look, left, top, line, li).h == pic.h,
{
    let ground = if look.opts.shadow {
        with_pass(pic, look, left, top, line, li, line.len(), true)
    } else {
        pic
    };
    lemma_pass_reach(pic, look, left, top, line, li, line.len(), true, x, y);
    lemma_pass_reach(ground, look, left, top, line, li, line.len(), false, x, y);
}

proof fn lemma_lines_reach(
    pic: Picture,
    look: Look,
    left: int,
    top: int,
    lines: Seq<Seq<PlacedView>>,
    n: nat,
    x: int,
    y: int,
)
    requires
        look.font.wf(),
        0 < look.opts.scale <= MAX_SCALE,
        n <= lines.len(),
        forall|i: int|
            0 <= i < lines.len() ==> layout::line_set(
                #[trigger] lines[i],
                look.font,
                look.opts.scale as int,
            ),
        out_of_reach(look, left, top, x, y),
    ensures
        with_lines(pic, look, left, top, lines, n).px(x, y) == pic.px(x, y),
        with_lines(pic, look, left, top, lines, n).w == pic.w,
        with_lines(pic, look, left, top, lines, n).h == pic.h,
    decreases n,
{
    if n > 0 {
        let m = (n - 1) as nat;
        let s = look.opts.scale as int;
        lemma_lines_reach(pic, look, left, top, lines, m, x, y);
        assert(0 <= m * (LINE_HEIGHT * s)) by (nonlinear_arith)
            requires
                0 <= m,
                0 < s,
                LINE_HEIGHT == 9,
        ;
        lemma_line_reach(
            with_lines(pic, look, left, top, lines, m),
            look,
            left,
            top + m * (LINE_HEIGHT * s),
            lines[m as int],
            m,
            x,
            y,
        );
    }
}

/// A text changes nothing far to the left of where it starts, nor, in a font that does not reach
/// far up, far above it. Slanted glyphs reach a little to the left.
pub proof fn text_stays_behind_its_start(
    pic: Picture,
    look: Look,
    left: int,
    top: int,
    spans: Seq<SpanView>,
    max_width: int,
    max_lines: int,
    x: int,
    y: int,
)
    requires
        look.font.wf(),
        0 < look.opts.scale <= MAX_SCALE,
        out_of_reach(look, left, top, x, y),
    ensures
        with_block(pic, look, left, top, spans, max_width, max_lines).px(x, y) == pic.px(x, y),
        with_block(pic, look, left, top, spans, max_width, max_lines).w == pic.w,
        with_block(pic, look, left, top, spans, max_width, max_lines).h == pic.h,
{
    let s = look.opts.scale as int;
    let lines = layout::laid_out(spans, look.font, max_width, max_lines, s);
    assert forall|i: int| 0 <= i < lines.len() implies layout::line_set(
        #[trigger] lines[i],
        look.font,
        s,
    ) by {
        layout::lines_are_set_in_the_font(spans, look.font, max_width, max_lines, s, i);
    }
    lemma_lines_reach(pic, look, left, top, lines, lines.len(), x, y);
}

/// The same of a text that ends at a given place.
pub proof fn right_text_stays_behind_its_start(
    pic: Picture,
    look: Look,
    right: int,
    top: int,
    spans: Seq<SpanView>,
    x: int,
    y: int,
)
    requires
        look.font.wf(),
        0 < look.opts.scale <= MAX_SCALE,
        out_of_reach(
            look,
            right - layout::measured(spans, look.font, look.opts.scale as int),
            top,
            x,
            y,
        ),
    ensures
        with_right(pic, look, right, top, spans).px(x, y) == pic.px(x, y),
        with_right(pic, look, right, top, spans).w == pic.w,
        with_right(pic, look, right, top, spans).h == pic.h,
{
    let s = look.opts.scale as int;
    let lines = layout::laid_out(spans, look.font, u32::MAX as int, 1, s);
    if lines.len() > 0 {
        layout::lines_are_set_in_the_font(spans, look.font, u32::MAX as int, 1, s, 0);
        lemma_line_reach(pic, look, right - glyphs::width(lines[0]), top, lines[0], 0, x, y);
    }
}

} // verus!
