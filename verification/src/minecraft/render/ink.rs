//! What text leaves on a picture.
//!
//! The characters of a line lie above all of its shadows, later characters above earlier ones, later
//! lines above earlier ones; everything else stays as it was.

use vstd::prelude::*;
use crate::minecraft::color;
use crate::minecraft::color::Color;
use crate::minecraft::component::{ResolvedStyle, SpanView};
use crate::minecraft::font::{GlyphView, VanillaFont};
use crate::minecraft::render::canvas;
use crate::minecraft::render::canvas::{Picture, Rgba};
use crate::minecraft::render::draw;
use crate::minecraft::render::draw::{
    darkened, drawn_glyph, ink_covers, text_color, with_block, with_line, with_lines, with_pass,
    with_right, Look, BASELINE, LINE_HEIGHT,
};
use crate::minecraft::render::glyphs;
use crate::minecraft::render::glyphs::{block_of, width, PlacedView};
use crate::minecraft::render::layout::laid_out;
use crate::minecraft::render::slant;

verus! {

/// The character number `i` of the line number `li`, or its shadow, covers the place. The line starts
/// at `left`, its top is `top`.
pub open spec fn covers(
    look: Look,
    left: int,
    top: int,
    line: Seq<PlacedView>,
    li: nat,
    i: int,
    is_shadow: bool,
    x: int,
    y: int,
) -> bool {
    let s = look.opts.scale as int;
    let g = drawn_glyph(line[i], look, li, i as nat);
    ink_covers(
        g,
        line[i].style,
        line[i].advance,
        s,
        left + width(line.take(i)),
        top,
        if is_shadow {
            block_of(g.unifont, s)
        } else {
            0
        },
        x,
        y,
    )
}

/// The character number `i` shows at the place: it covers it, and no later one of its line does.
pub open spec fn shows(
    look: Look,
    left: int,
    top: int,
    line: Seq<PlacedView>,
    li: nat,
    i: int,
    x: int,
    y: int,
) -> bool {
    &&& 0 <= i < line.len()
    &&& covers(look, left, top, line, li, i, false, x, y)
    &&& forall|j: int|
        i < j < line.len() ==> !#[trigger] covers(look, left, top, line, li, j, false, x, y)
}

/// A character of the line, or a shadow, covers the place.
pub open spec fn touches(
    look: Look,
    left: int,
    top: int,
    line: Seq<PlacedView>,
    li: nat,
    x: int,
    y: int,
) -> bool {
    exists|j: int, is_shadow: bool|
        0 <= j < line.len() && (is_shadow ==> look.opts.shadow) && #[trigger] covers(
            look,
            left,
            top,
            line,
            li,
            j,
            is_shadow,
            x,
            y,
        )
}

/// The top of the line number `k` of a text.
pub open spec fn line_top(look: Look, top: int, k: int) -> int {
    top + k * (9 * look.opts.scale)
}

/// The character number `i` of the line number `k` of several lines shows at the place.
pub open spec fn lines_show(
    look: Look,
    left: int,
    top: int,
    lines: Seq<Seq<PlacedView>>,
    k: int,
    i: int,
    x: int,
    y: int,
) -> bool {
    &&& 0 <= k < lines.len()
    &&& shows(look, left, line_top(look, top, k), lines[k], k as nat, i, x, y)
    &&& forall|m: int|
        k < m < lines.len() ==> !touches(
            look,
            left,
            #[trigger] line_top(look, top, m),
            lines[m],
            m as nat,
            x,
            y,
        )
}

/// Something of the lines covers the place.
pub open spec fn lines_touch(
    look: Look,
    left: int,
    top: int,
    lines: Seq<Seq<PlacedView>>,
    x: int,
    y: int,
) -> bool {
    exists|m: int|
        0 <= m < lines.len() && touches(
            look,
            left,
            #[trigger] line_top(look, top, m),
            lines[m],
            m as nat,
            x,
            y,
        )
}

/// A text that starts at (`left`, `top`) and is broken at `max_width` GUI pixels into at most
/// `max_lines` lines shows a character in this colour at the place.
pub open spec fn text_shows(
    look: Look,
    left: int,
    top: int,
    spans: Seq<SpanView>,
    max_width: int,
    max_lines: int,
    x: int,
    y: int,
    c: Rgba,
) -> bool {
    let lines = laid_out(spans, look.font, max_width, max_lines, look.opts.scale as int);
    exists|k: int, i: int| #[trigger]
        lines_show(look, left, top, lines, k, i, x, y) && c == text_color(lines[k][i].style, look)
}

/// Something of such a text covers the place.
pub open spec fn text_touches(
    look: Look,
    left: int,
    top: int,
    spans: Seq<SpanView>,
    max_width: int,
    max_lines: int,
    x: int,
    y: int,
) -> bool {
    lines_touch(
        look,
        left,
        top,
        laid_out(spans, look.font, max_width, max_lines, look.opts.scale as int),
        x,
        y,
    )
}

/// A line of text that ends at `right` shows a character in this colour at the place.
pub open spec fn right_shows(
    look: Look,
    right: int,
    top: int,
    spans: Seq<SpanView>,
    x: int,
    y: int,
    c: Rgba,
) -> bool {
    let lines = laid_out(spans, look.font, u32::MAX as int, 1, look.opts.scale as int);
    lines.len() > 0 && exists|i: int| #[trigger]
        shows(look, right - width(lines[0]), top, lines[0], 0, i, x, y) && c == text_color(
            lines[0][i].style,
            look,
        )
}

/// Something of a line of text that ends at `right` covers the place.
pub open spec fn right_touches(
    look: Look,
    right: int,
    top: int,
    spans: Seq<SpanView>,
    x: int,
    y: int,
) -> bool {
    let lines = laid_out(spans, look.font, u32::MAX as int, 1, look.opts.scale as int);
    lines.len() > 0 && touches(look, right - width(lines[0]), top, lines[0], 0, x, y)
}

// ---- one pass over a line ----

proof fn lemma_pass_apart(
    pic: Picture,
    look: Look,
    left: int,
    top: int,
    line: Seq<PlacedView>,
    li: nat,
    n: nat,
    is_shadow: bool,
    x: int,
    y: int,
)
    requires
        n <= line.len(),
        forall|j: int|
            0 <= j < n ==> !#[trigger] covers(look, left, top, line, li, j, is_shadow, x, y),
    ensures
        with_pass(pic, look, left, top, line, li, n, is_shadow).px(x, y) == pic.px(x, y),
    decreases n,
{
    if n > 0 {
        let m = (n - 1) as nat;
        lemma_pass_apart(pic, look, left, top, line, li, m, is_shadow, x, y);
        assert(!covers(look, left, top, line, li, m as int, is_shadow, x, y));
    }
}

proof fn lemma_pass_size(
    pic: Picture,
    look: Look,
    left: int,
    top: int,
    line: Seq<PlacedView>,
    li: nat,
    n: nat,
    is_shadow: bool,
)
    ensures
        with_pass(pic, look, left, top, line, li, n, is_shadow).w == pic.w,
        with_pass(pic, look, left, top, line, li, n, is_shadow).h == pic.h,
    decreases n,
{
    if n > 0 {
        lemma_pass_size(pic, look, left, top, line, li, (n - 1) as nat, is_shadow);
    }
}

proof fn lemma_pass_on(
    pic: Picture,
    look: Look,
    left: int,
    top: int,
    line: Seq<PlacedView>,
    li: nat,
    n: nat,
    is_shadow: bool,
    i: int,
    x: int,
    y: int,
)
    requires
        n <= line.len(),
        pic.inside(x, y),
        0 <= i < n,
        covers(look, left, top, line, li, i, is_shadow, x, y),
        forall|j: int|
            i < j < n ==> !#[trigger] covers(look, left, top, line, li, j, is_shadow, x, y),
    ensures
        with_pass(pic, look, left, top, line, li, n, is_shadow).px(x, y) == (if is_shadow {
            darkened(text_color(line[i].style, look))
        } else {
            text_color(line[i].style, look)
        }),
    decreases n,
{
    let m = (n - 1) as nat;
    lemma_pass_size(pic, look, left, top, line, li, m, is_shadow);
    if i < m {
        lemma_pass_on(pic, look, left, top, line, li, m, is_shadow, i, x, y);
        assert(!covers(look, left, top, line, li, m as int, is_shadow, x, y));
    }
}

// ---- lines ----

/// The characters of a line lie above all of its shadows: where a character covers a place and no
/// later one does, the place has the colour of that character, with shadows or without.
pub proof fn characters_lie_above_shadows(
    pic: Picture,
    look: Look,
    left: int,
    top: int,
    line: Seq<PlacedView>,
    li: nat,
    i: int,
    x: int,
    y: int,
)
    requires
        pic.inside(x, y),
        shows(look, left, top, line, li, i, x, y),
    ensures
        with_line(pic, look, left, top, line, li).px(x, y) == text_color(line[i].style, look),
{
    lemma_pass_size(pic, look, left, top, line, li, line.len(), true);
    let ground = if look.opts.shadow {
        with_pass(pic, look, left, top, line, li, line.len(), true)
    } else {
        pic
    };
    lemma_pass_on(ground, look, left, top, line, li, line.len(), false, i, x, y);
}

/// A shadow, a quarter as bright as its character, shows where no character of its line covers the
/// place and no later shadow does.
pub proof fn shadows_show_beside_characters(
    pic: Picture,
    look: Look,
    left: int,
    top: int,
    line: Seq<PlacedView>,
    li: nat,
    i: int,
    x: int,
    y: int,
)
    requires
        look.opts.shadow,
        pic.inside(x, y),
        0 <= i < line.len(),
        covers(look, left, top, line, li, i, true, x, y),
        forall|j: int|
            i < j < line.len() ==> !#[trigger] covers(look, left, top, line, li, j, true, x, y),
        forall|j: int|
            0 <= j < line.len() ==> !#[trigger] covers(look, left, top, line, li, j, false, x, y),
    ensures
        ({
            let c = text_color(line[i].style, look);
            with_line(pic, look, left, top, line, li).px(x, y) == Rgba {
                r: c.r / 4,
                g: c.g / 4,
                b: c.b / 4,
                a: 255,
            }
        }),
{
    let ground = with_pass(pic, look, left, top, line, li, line.len(), true);
    lemma_pass_on(pic, look, left, top, line, li, line.len(), true, i, x, y);
    lemma_pass_apart(ground, look, left, top, line, li, line.len(), false, x, y);
}

/// A line changes nothing where neither its characters nor its shadows are.
pub proof fn lines_leave_the_rest(
    pic: Picture,
    look: Look,
    left: int,
    top: int,
    line: Seq<PlacedView>,
    li: nat,
    x: int,
    y: int,
)
    requires
        !touches(look, left, top, line, li, x, y),
    ensures
        with_line(pic, look, left, top, line, li).px(x, y) == pic.px(x, y),
{
    let ground = if look.opts.shadow {
        with_pass(pic, look, left, top, line, li, line.len(), true)
    } else {
        pic
    };
    assert forall|j: int| 0 <= j < line.len() implies !#[trigger] covers(
        look,
        left,
        top,
        line,
        li,
        j,
        false,
        x,
        y,
    ) by {}
    if look.opts.shadow {
        assert forall|j: int| 0 <= j < line.len() implies !#[trigger] covers(
            look,
            left,
            top,
            line,
            li,
            j,
            true,
            x,
            y,
        ) by {}
        lemma_pass_apart(pic, look, left, top, line, li, line.len(), true, x, y);
    }
    lemma_pass_apart(ground, look, left, top, line, li, line.len(), false, x, y);
}

proof fn lemma_line_size(
    pic: Picture,
    look: Look,
    left: int,
    top: int,
    line: Seq<PlacedView>,
    li: nat,
)
    ensures
        with_line(pic, look, left, top, line, li).w == pic.w,
        with_line(pic, look, left, top, line, li).h == pic.h,
{
    lemma_pass_size(pic, look, left, top, line, li, line.len(), true);
    let ground = with_pass(pic, look, left, top, line, li, line.len(), true);
    lemma_pass_size(pic, look, left, top, line, li, line.len(), false);
    lemma_pass_size(ground, look, left, top, line, li, line.len(), false);
}

// ---- several lines ----

proof fn lemma_lines_size(
    pic: Picture,
    look: Look,
    left: int,
    top: int,
    lines: Seq<Seq<PlacedView>>,
    n: nat,
)
    ensures
        with_lines(pic, look, left, top, lines, n).w == pic.w,
        with_lines(pic, look, left, top, lines, n).h == pic.h,
    decreases n,
{
    if n > 0 {
        let m = (n - 1) as nat;
        lemma_lines_size(pic, look, left, top, lines, m);
        lemma_line_size(
            with_lines(pic, look, left, top, lines, m),
            look,
            left,
            top + m * (LINE_HEIGHT * look.opts.scale),
            lines[m as int],
            m,
        );
    }
}

proof fn lemma_lines_apart(
    pic: Picture,
    look: Look,
    left: int,
    top: int,
    lines: Seq<Seq<PlacedView>>,
    n: nat,
    x: int,
    y: int,
)
    requires
        n <= lines.len(),
        forall|m: int|
            0 <= m < n ==> !touches(
                look,
                left,
                #[trigger] line_top(look, top, m),
                lines[m],
                m as nat,
                x,
                y,
            ),
    ensures
        with_lines(pic, look, left, top, lines, n).px(x, y) == pic.px(x, y),
    decreases n,
{
    if n > 0 {
        let m = (n - 1) as nat;
        lemma_lines_apart(pic, look, left, top, lines, m, x, y);
        assert(!touches(
            look,
            left,
            line_top(look, top, m as int),
            lines[m as int],
            m,
            x,
            y,
        ));
        lines_leave_the_rest(
            with_lines(pic, look, left, top, lines, m),
            look,
            left,
            line_top(look, top, m as int),
            lines[m as int],
            m,
            x,
            y,
        );
    }
}

proof fn lemma_lines_on(
    pic: Picture,
    look: Look,
    left: int,
    top: int,
    lines: Seq<Seq<PlacedView>>,
    n: nat,
    k: int,
    i: int,
    x: int,
    y: int,
)
    requires
        n <= lines.len(),
        pic.inside(x, y),
        0 <= k < n,
        shows(look, left, line_top(look, top, k), lines[k], k as nat, i, x, y),
        forall|m: int|
            k < m < n ==> !touches(
                look,
                left,
                #[trigger] line_top(look, top, m),
                lines[m],
                m as nat,
                x,
                y,
            ),
    ensures
        with_lines(pic, look, left, top, lines, n).px(x, y) == text_color(lines[k][i].style, look),
    decreases n,
{
    let m = (n - 1) as nat;
    let before = with_lines(pic, look, left, top, lines, m);
    lemma_lines_size(pic, look, left, top, lines, m);
    if k == m {
        characters_lie_above_shadows(
            before,
            look,
            left,
            line_top(look, top, k),
            lines[k],
            m,
            i,
            x,
            y,
        );
    } else {
        lemma_lines_on(pic, look, left, top, lines, m, k, i, x, y);
        assert(!touches(
            look,
            left,
            line_top(look, top, m as int),
            lines[m as int],
            m,
            x,
            y,
        ));
        lines_leave_the_rest(
            before,
            look,
            left,
            line_top(look, top, m as int),
            lines[m as int],
            m,
            x,
            y,
        );
    }
}

/// Where several lines show a character, the place has its colour.
pub proof fn lines_are_shown(
    pic: Picture,
    look: Look,
    left: int,
    top: int,
    lines: Seq<Seq<PlacedView>>,
    k: int,
    i: int,
    x: int,
    y: int,
)
    requires
        pic.inside(x, y),
        lines_show(look, left, top, lines, k, i, x, y),
    ensures
        with_lines(pic, look, left, top, lines, lines.len()).px(x, y) == text_color(
            lines[k][i].style,
            look,
        ),
{
    lemma_lines_on(pic, look, left, top, lines, lines.len(), k, i, x, y);
}

/// A text is drawn: where it shows a character, the place has the colour of that character.
pub proof fn texts_are_shown(
    pic: Picture,
    look: Look,
    left: int,
    top: int,
    spans: Seq<SpanView>,
    max_width: int,
    max_lines: int,
    x: int,
    y: int,
    c: Rgba,
)
    requires
        pic.inside(x, y),
        text_shows(look, left, top, spans, max_width, max_lines, x, y, c),
    ensures
        with_block(pic, look, left, top, spans, max_width, max_lines).px(x, y) == c,
{
    let lines = laid_out(spans, look.font, max_width, max_lines, look.opts.scale as int);
    let (k, i) = choose|k: int, i: int| #[trigger]
        lines_show(look, left, top, lines, k, i, x, y) && c == text_color(lines[k][i].style, look);
    lines_are_shown(pic, look, left, top, lines, k, i, x, y);
}

/// A text leaves everything else as it was, and the size of the picture.
pub proof fn texts_leave_the_rest(
    pic: Picture,
    look: Look,
    left: int,
    top: int,
    spans: Seq<SpanView>,
    max_width: int,
    max_lines: int,
    x: int,
    y: int,
)
    ensures
        with_block(pic, look, left, top, spans, max_width, max_lines).w == pic.w,
        with_block(pic, look, left, top, spans, max_width, max_lines).h == pic.h,
        !text_touches(look, left, top, spans, max_width, max_lines, x, y) ==> with_block(
            pic,
            look,
            left,
            top,
            spans,
            max_width,
            max_lines,
        ).px(x, y) == pic.px(x, y),
{
    let lines = laid_out(spans, look.font, max_width, max_lines, look.opts.scale as int);
    lemma_lines_size(pic, look, left, top, lines, lines.len());
    if !text_touches(look, left, top, spans, max_width, max_lines, x, y) {
        lemma_lines_apart(pic, look, left, top, lines, lines.len(), x, y);
    }
}

/// A line of text that ends at a given place is drawn.
pub proof fn right_texts_are_shown(
    pic: Picture,
    look: Look,
    right: int,
    top: int,
    spans: Seq<SpanView>,
    x: int,
    y: int,
    c: Rgba,
)
    requires
        pic.inside(x, y),
        right_shows(look, right, top, spans, x, y, c),
    ensures
        with_right(pic, look, right, top, spans).px(x, y) == c,
{
    let lines = laid_out(spans, look.font, u32::MAX as int, 1, look.opts.scale as int);
    let left = right - width(lines[0]);
    let i = choose|i: int| #[trigger]
        shows(look, left, top, lines[0], 0, i, x, y) && c == text_color(lines[0][i].style, look);
    characters_lie_above_shadows(pic, look, left, top, lines[0], 0, i, x, y);
}

/// Such a line leaves everything else as it was, and the size of the picture.
pub proof fn right_texts_leave_the_rest(
    pic: Picture,
    look: Look,
    right: int,
    top: int,
    spans: Seq<SpanView>,
    x: int,
    y: int,
)
    ensures
        with_right(pic, look, right, top, spans).w == pic.w,
        with_right(pic, look, right, top, spans).h == pic.h,
        !right_touches(look, right, top, spans, x, y) ==> with_right(
            pic,
            look,
            right,
            top,
            spans,
        ).px(x, y) == pic.px(x, y),
{
    let lines = laid_out(spans, look.font, u32::MAX as int, 1, look.opts.scale as int);
    if lines.len() > 0 {
        let left = right - width(lines[0]);
        lemma_line_size(pic, look, left, top, lines[0], 0);
        if !right_touches(look, right, top, spans, x, y) {
            lines_leave_the_rest(pic, look, left, top, lines[0], 0, x, y);
        }
    }
}

// ---- one character ----

/// Every lit pixel of a glyph becomes a square of ink: of the side of the enlargement, or half of it
/// for Unifont; the baseline lies seven GUI pixels below the top of the line. Bold text has a second
/// square to its right, slanted text moves row by row, and a shadow lies `off` to the right and below.
pub proof fn lit_pixels_are_drawn(
    g: GlyphView,
    style: ResolvedStyle,
    advance: int,
    s: int,
    pen: int,
    top: int,
    off: int,
    col: int,
    row: int,
    dx: int,
    dy: int,
)
    requires
        g.at(col, row),
        ({
            let side = if !g.unifont {
                s
            } else if s / 2 > 1 {
                s / 2
            } else {
                1
            };
            0 <= dx < side && 0 <= dy < side
        }),
    ensures
        ({
            let side = if !g.unifont {
                s
            } else if s / 2 > 1 {
                s / 2
            } else {
                1
            };
            let lean = if style.italic {
                slant::shear(g, row, s)
            } else {
                0
            };
            let x = pen + off + col * side + lean + dx;
            let y = top + 7 * s - g.ascent * side + off + row * side + dy;
            &&& ink_covers(g, style, advance, s, pen, top, off, x, y)
            &&& style.bold ==> ink_covers(g, style, advance, s, pen, top, off, x + side, y)
        }),
{
    let side = block_of(g.unifont, s);
    let lean = if style.italic {
        slant::shear(g, row, s)
    } else {
        0
    };
    let left = pen + off;
    let first = top + BASELINE * s - g.ascent * side + off;
    let x = left + col * side + lean + dx;
    let y = first + row * side + dy;
    assert(draw::square_covers(g, style, s, left, first, col, row, x, y));
    assert(draw::glyph_covers(g, style, s, left, first, x, y));
    if style.bold {
        assert(draw::square_covers(g, style, s, left, first, col, row, x + side, y));
        assert(draw::glyph_covers(g, style, s, left, first, x + side, y));
    }
}

/// Plain text has ink nowhere else: a place that it covers lies in the square of a lit pixel.
pub proof fn only_lit_pixels_are_drawn(
    g: GlyphView,
    style: ResolvedStyle,
    advance: int,
    s: int,
    pen: int,
    top: int,
    off: int,
    x: int,
    y: int,
)
    requires
        s > 0,
        !style.bold && !style.italic && !style.strikethrough && !style.underlined,
        ink_covers(g, style, advance, s, pen, top, off, x, y),
    ensures
        ({
            let side = if !g.unifont {
                s
            } else if s / 2 > 1 {
                s / 2
            } else {
                1
            };
            g.at((x - pen - off) / side, (y - (top + 7 * s - g.ascent * side + off)) / side)
        }),
{
    let side = block_of(g.unifont, s);
    let left = pen + off;
    let first = top + BASELINE * s - g.ascent * side + off;
    assert(draw::glyph_covers(g, style, s, left, first, x, y));
    let (col, row) = choose|col: int, row: int| #[trigger]
        g.at(col, row) && draw::square_covers(g, style, s, left, first, col, row, x, y);
    canvas::lemma_cell(x, left, col, side);
    canvas::lemma_cell(y, first, row, side);
}

/// Struck text has a line through it, three and a half GUI pixels below its top, and underlined text
/// one below it, eight below its top; both are a GUI pixel thick and as long as the character.
pub proof fn struck_and_underlined_text_has_its_line(
    g: GlyphView,
    style: ResolvedStyle,
    advance: int,
    s: int,
    pen: int,
    top: int,
    off: int,
    dx: int,
    dy: int,
)
    requires
        0 <= dx < advance,
        0 <= dy < s,
    ensures
        style.strikethrough ==> ink_covers(
            g,
            style,
            advance,
            s,
            pen,
            top,
            off,
            pen + off + dx,
            top + 7 * s / 2 + off + dy,
        ),
        style.underlined ==> ink_covers(
            g,
            style,
            advance,
            s,
            pen,
            top,
            off,
            pen + off + dx,
            top + 8 * s + off + dy,
        ),
{
}

/// Text without a colour has that of its place; a named or a free colour is its own; a client that
/// knows no free colours drops them or takes the nearest named one.
pub proof fn text_has_its_color(style: ResolvedStyle, look: Look)
    ensures
        ({
            let c = text_color(style, look);
            let old = look.opts.target is V1_8_9 || look.opts.target is V1_12_2;
            let fg = look.fg;
            &&& c.a == 255
            &&& style.color is None ==> (c.r, c.g, c.b) == fg
            &&& style.color matches Some(Color::Named(i)) ==> i < 16 ==> (c.r, c.g, c.b)
                == color::rgb_of(i as int)
            &&& style.color matches Some(Color::Rgb(r, g, b)) ==> {
                &&& !old ==> (c.r, c.g, c.b) == (r, g, b)
                &&& old && look.opts.old_color_policy is Drop ==> (c.r, c.g, c.b) == fg
                &&& old && look.opts.old_color_policy is Downsample ==> (c.r, c.g, c.b)
                    == color::rgb_of(color::nearest((r, g, b), 16))
            }
        }),
{
    if let Some(Color::Rgb(r, g, b)) = style.color {
        color::nearest_is_nearest((r, g, b));
    }
}

/// A character that is not obfuscated shows its own glyph; an obfuscated one shows a glyph of the
/// font, or its own.
pub proof fn characters_show_their_glyph(p: PlacedView, look: Look, li: nat, ci: nat)
    ensures
        !p.style.obfuscated ==> drawn_glyph(p, look, li, ci) == p.glyph,
        drawn_glyph(p, look, li, ci) == p.glyph || exists|ch: char|
            #[trigger] look.font.lookup(ch) == Some(drawn_glyph(p, look, li, ci)),
{
}

/// An obfuscated character shows a glyph of its own kind of font: one of the capital letters, digits
/// and signs, or one of the wide characters, picked by the number; without that glyph, its own.
pub proof fn obfuscated_text_shows_other_glyphs(f: VanillaFont, g: GlyphView, n: u64)
    ensures
        ({
            let narrow = "ABCDEFGHJKLMNPQRSTUVWXYZ23456789#%&@"@;
            let wide = "你好世界中文字符森林风云"@;
            let ch = if g.unifont {
                wide[n as int % 12]
            } else {
                narrow[n as int % 36]
            };
            &&& f.lookup(ch) is None ==> draw::scrambled(f, g, n) == g
            &&& f.lookup(ch) is Some ==> Some(draw::scrambled(f, g, n)) == f.lookup(ch)
        }),
{
    reveal_strlit("ABCDEFGHJKLMNPQRSTUVWXYZ23456789#%&@");
    reveal_strlit("你好世界中文字符森林风云");
}

} // verus!
