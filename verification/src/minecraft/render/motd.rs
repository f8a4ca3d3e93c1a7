//! Pictures of server descriptions.

use vstd::prelude::*;
use crate::minecraft::component;
use crate::minecraft::component::{Component, Span, SpanView};
use crate::minecraft::font::VanillaFont;
use crate::minecraft::outside;
use crate::minecraft::render::canvas;
use crate::minecraft::render::canvas::{Canvas, Picture, Rgba};
use crate::minecraft::render::draw;
use crate::minecraft::render::draw::{draw_lines, Ctx, Look};
use crate::minecraft::render::layout;
use crate::minecraft::render::layout::MAX_CHARS;
use crate::minecraft::render::options::{RenderOptions, MAX_SCALE};

verus! {

/// An empty picture on the background of the options.
pub open spec fn ground(w: int, h: int, background: Option<Rgba>) -> Picture {
    canvas::plain(
        canvas::at_least(w, 1),
        canvas::at_least(h, 1),
        match background {
            Some(c) => c,
            None => canvas::clear(),
        },
    )
}

/// An empty picture on a background.
pub fn new_canvas(w: u32, h: u32, background: Option<Rgba>) -> (r: Canvas)
    requires
        canvas::fits(canvas::at_least(w as int, 1), canvas::at_least(h as int, 1)),
    ensures
        r.wf(),
        r@ == ground(w as int, h as int, background),
{
    let c = match background {
        Some(c) => c,
        None => Rgba { r: 0, g: 0, b: 0, a: 0 },
    };
    Canvas::filled_with(
        if w > 1 {
            w
        } else {
            1
        },
        if h > 1 {
            h
        } else {
            1
        },
        c,
    )
}

/// How many lines high the picture of a description is: as many as are drawn, at least one.
pub open spec fn motd_lines(spans: Seq<SpanView>, font: VanillaFont, opts: RenderOptions) -> int {
    canvas::at_least(
        layout::line_count(
            spans,
            font,
            opts.max_width as int,
            opts.max_lines as int,
            opts.scale as int,
        ) as int,
        1,
    )
}

/// The width of the picture of a description: that of a line and the space around it.
pub open spec fn motd_width(opts: RenderOptions) -> int {
    (2 * opts.padding + opts.max_width) * opts.scale
}

/// The height of the picture of a description: that of its lines, room for accents, and the space
/// around them.
pub open spec fn motd_height(spans: Seq<SpanView>, font: VanillaFont, opts: RenderOptions) -> int {
    (2 * opts.padding + motd_lines(spans, font, opts) * draw::LINE_HEIGHT + 3) * opts.scale
}

/// The picture of a description can be held in memory.
pub open spec fn motd_fits(spans: Seq<SpanView>, font: VanillaFont, opts: RenderOptions) -> bool {
    &&& opts.scale <= MAX_SCALE
    &&& layout::char_count(spans) <= MAX_CHARS
    &&& canvas::fits(
        canvas::at_least(motd_width(opts), 1),
        canvas::at_least(motd_height(spans, font, opts), 1),
    )
}

/// The picture of a description.
pub open spec fn motd_picture(
    spans: Seq<SpanView>,
    font: VanillaFont,
    opts: RenderOptions,
) -> Picture {
    draw::with_block(
        ground(motd_width(opts), motd_height(spans, font, opts), opts.background),
        Look { font, opts, fg: opts.default_color },
        opts.padding * opts.scale,
        opts.padding * opts.scale,
        spans,
        opts.max_width as int,
        opts.max_lines as int,
    )
}

/// Draws a description. The picture is as wide as a line may be, so that leading spaces centre
/// what they are meant to centre.
pub fn render_motd(font: &VanillaFont, spans: &[Span], opts: &RenderOptions) -> (r: Canvas)
    requires
        font.wf(),
        component::spans_ok(component::span_views(spans@)),
        motd_fits(component::span_views(spans@), *font, *opts),
    ensures
        r.wf(),
        r@ == motd_picture(component::span_views(spans@), *font, *opts),
{
    let s: u32 = opts.scale;
    let lines = layout::layout(font, spans, opts.max_width, opts.max_lines, s);
    let n: u64 = if lines.len() > 1 {
        lines.len() as u64
    } else {
        1
    };
    let src_w: u64 = 2 * opts.padding as u64 + opts.max_width as u64;
    let src_h: u64 = 2 * opts.padding as u64 + n * (draw::LINE_HEIGHT as u64) + 3;
    proof {
        let views = crate::minecraft::render::glyphs::lines_view(lines@);
        assert(views.len() == lines@.len());
        assert forall|i: int| 0 <= i < views.len() implies (#[trigger] views[i]).len() <= 4
            * MAX_CHARS by {}
        assert(0 <= src_w * s <= 0x4_0000_0000 * 0x10_0000) by (nonlinear_arith)
            requires
                0 <= src_w <= 0x4_0000_0000,
                0 <= s <= 0x10_0000,
        ;
        assert(0 <= src_h * s <= 0x8_0000_0000 * 0x10_0000) by (nonlinear_arith)
            requires
                0 <= src_h <= 0x8_0000_0000,
                0 <= s <= 0x10_0000,
        ;
        assert(0 <= opts.padding * s <= 0xFFFF_FFFF * 0x10_0000) by (nonlinear_arith)
            requires
                0 <= opts.padding <= 0xFFFF_FFFF,
                0 <= s <= 0x10_0000,
        ;
    }
    let mut img = new_canvas((src_w * s as u64) as u32, (src_h * s as u64) as u32, opts.background);
    let ctx = Ctx { font, opts: *opts, fg: opts.default_color };
    let at: i64 = (opts.padding as u64 * s as u64) as i64;
    draw_lines(&mut img, &ctx, at, at, &lines);
    img
}

/// Whether a description can be drawn.
pub fn motd_can_be_drawn(font: &VanillaFont, spans: &[Span], opts: &RenderOptions) -> (r: bool)
    requires
        font.wf(),
    ensures
        r == (component::spans_ok(component::span_views(spans@)) && motd_fits(
            component::span_views(spans@),
            *font,
            *opts,
        )),
{
    if opts.scale > MAX_SCALE || !component::spans_have_known_colors(spans) || !layout::is_short(
        spans,
    ) {
        return false;
    }
    let s: u32 = opts.scale;
    let lines = layout::layout(font, spans, opts.max_width, opts.max_lines, s);
    assert(lines@.len() <= MAX_CHARS);
    let n: u64 = if lines.len() > 1 {
        lines.len() as u64
    } else {
        1
    };
    let src_w: u64 = 2 * opts.padding as u64 + opts.max_width as u64;
    let line: u64 = draw::LINE_HEIGHT as u64;
    assert(n * line == 9 * n) by (nonlinear_arith)
        requires
            line == 9,
    ;
    let src_h: u64 = 2 * opts.padding as u64 + n * line + 3;
    proof {
        assert(0 <= src_w * s <= 0x4_0000_0000 * 0x10_0000) by (nonlinear_arith)
            requires
                0 <= src_w <= 0x4_0000_0000,
                0 <= s <= 0x10_0000,
        ;
        assert(0 <= src_h * s <= 0x8_0000_0000 * 0x10_0000) by (nonlinear_arith)
            requires
                0 <= src_h <= 0x8_0000_0000,
                0 <= s <= 0x10_0000,
        ;
    }
    let w: u64 = src_w * s as u64;
    let h: u64 = src_h * s as u64;
    canvas::is_holdable(
        if w > 1 {
            w
        } else {
            1
        },
        if h > 1 {
            h
        } else {
            1
        },
    )
}

/// Draws the description that a component gives.
pub fn render_component(font: &VanillaFont, comp: &Component, opts: &RenderOptions) -> (r: Canvas)
    requires
        font.wf(),
        component::colors_ok(comp.model()),
        motd_fits(component::spans_of(comp.model()), *font, *opts),
    ensures
        r.wf(),
        r@ == motd_picture(component::spans_of(comp.model()), *font, *opts),
{
    let spans = comp.to_spans();
    render_motd(font, spans.as_slice(), opts)
}

/// The outcome of making a PNG file.
pub open spec fn png_result(r: Result<Vec<u8>, String>) -> Result<Seq<u8>, Seq<char>> {
    match r {
        Ok(b) => Ok(b@),
        Err(e) => Err(e@),
    }
}

/// The PNG file of a picture.
pub open spec fn png_file(p: Picture) -> Result<Seq<u8>, Seq<char>> {
    outside::png_of(canvas::raw_bytes(p), p.w as nat, p.h as nat)
}

/// The PNG file of a picture.
pub fn encode_png(img: &Canvas) -> (r: Result<Vec<u8>, String>)
    requires
        img.wf(),
    ensures
        png_result(r) == png_file(img@),
{
    let raw = img.to_raw();
    outside::write_png(raw.as_slice(), img.width(), img.height())
}

/// The PNG file of a description.
pub fn render_motd_png(font: &VanillaFont, spans: &[Span], opts: &RenderOptions) -> (r: Result<
    Vec<u8>,
    String,
>)
    requires
        font.wf(),
        component::spans_ok(component::span_views(spans@)),
        motd_fits(component::span_views(spans@), *font, *opts),
    ensures
        png_result(r) == png_file(motd_picture(component::span_views(spans@), *font, *opts)),
{
    let img = render_motd(font, spans, opts);
    encode_png(&img)
}

} // verus!
