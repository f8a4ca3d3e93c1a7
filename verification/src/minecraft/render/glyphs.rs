//! Characters in their place on a line.

use vstd::prelude::*;
use crate::minecraft::component;
use crate::minecraft::component::ResolvedStyle;
use crate::minecraft::font;
use crate::minecraft::font::{Glyph, GlyphSource, GlyphView, VanillaFont};
use crate::minecraft::render::canvas;
use crate::minecraft::render::options::MAX_SCALE;

verus! {

/// A character on a line: its style, its glyph and the distance to the next one, in pixels.
#[derive(Clone, Copy)]
pub struct Placed {
    pub ch: char,
    pub style: ResolvedStyle,
    pub glyph: Glyph,
    pub advance: u64,
}

/// What a [`Placed`] holds.
#[verifier::ext_equal]
pub struct PlacedView {
    pub ch: char,
    pub style: ResolvedStyle,
    pub glyph: GlyphView,
    pub advance: int,
}

impl Placed {
    /// What the character holds.
    pub open spec fn model(self) -> PlacedView {
        PlacedView {
            ch: self.ch,
            style: self.style,
            glyph: self.glyph.model(),
            advance: self.advance as int,
        }
    }
}

/// What each character of a line holds.
pub open spec fn line_view(line: Seq<Placed>) -> Seq<PlacedView> {
    Seq::new(line.len(), |i: int| line[i].model())
}

/// What each of several lines holds.
pub open spec fn lines_view(lines: Seq<Vec<Placed>>) -> Seq<Seq<PlacedView>> {
    Seq::new(lines.len(), |i: int| line_view(lines[i]@))
}

/// The width of a line.
pub open spec fn width(line: Seq<PlacedView>) -> int
    decreases line.len(),
{
    if line.len() == 0 {
        0
    } else {
        width(line.drop_last()) + line.last().advance
    }
}

/// The characters of a line.
pub open spec fn chars(line: Seq<PlacedView>) -> Seq<char> {
    Seq::new(line.len(), |i: int| line[i].ch)
}

/// The hollow box that stands for a missing glyph.
pub open spec fn tofu_view() -> GlyphView {
    GlyphView {
        advance: 7,
        width: 6,
        height: 8,
        ascent: 7,
        unifont: false,
        rows: Seq::new(
            16,
            |r: int|
                if r == 0 || r == 7 {
                    0xFC00u16
                } else if r < 8 {
                    0x8400u16
                } else {
                    0u16
                },
        ),
    }
}

/// The glyph that a character shows.
pub open spec fn shown(f: VanillaFont, ch: char) -> GlyphView {
    match f.lookup(ch) {
        Some(g) => g,
        None => tofu_view(),
    }
}

/// The side of the square that a pixel of a glyph becomes.
pub open spec fn block_of(unifont: bool, scale: int) -> int {
    if unifont {
        canvas::at_least(scale / 2, 1)
    } else {
        scale
    }
}

/// The character in its place; bold text is wider by a pixel of the glyph.
pub open spec fn placed(f: VanillaFont, ch: char, style: ResolvedStyle, scale: int) -> PlacedView {
    let glyph = shown(f, ch);
    PlacedView {
        ch,
        style,
        glyph,
        advance: glyph.advance * scale + (if style.bold {
            block_of(glyph.unifont, scale)
        } else {
            0
        }),
    }
}

/// No character of a line leads back to the left.
pub open spec fn line_forward(line: Seq<PlacedView>) -> bool {
    forall|i: int| 0 <= i < line.len() ==> (#[trigger] line[i]).advance >= 0
}

/// The width of such a line is no less than zero.
pub proof fn lemma_width_forward(line: Seq<PlacedView>)
    requires
        line_forward(line),
    ensures
        width(line) >= 0,
    decreases line.len(),
{
    if line.len() > 0 {
        assert forall|i: int| 0 <= i < line.drop_last().len() implies (
        #[trigger] line.drop_last()[i]).advance >= 0 by {
            assert(line.drop_last()[i] == line[i]);
        }
        lemma_width_forward(line.drop_last());
        assert(line[line.len() - 1].advance >= 0);
    }
}

/// No character leads back to the left.
pub proof fn lemma_placed_forward(f: VanillaFont, ch: char, style: ResolvedStyle, scale: int)
    requires
        0 <= scale,
    ensures
        placed(f, ch, style, scale).advance >= 0,
{
    let g = shown(f, ch);
    assert(0 <= g.advance * scale) by (nonlinear_arith)
        requires
            0 <= g.advance,
            0 <= scale,
    ;
}

/// The glyph of a character fits its rows, and the character is not too wide.
pub open spec fn sized(p: PlacedView) -> bool {
    p.glyph.wf() && 0 <= p.advance <= 256 * MAX_SCALE
}

/// Every character of a line is sized.
pub open spec fn line_sized(line: Seq<PlacedView>) -> bool {
    forall|i: int| 0 <= i < line.len() ==> sized(#[trigger] line[i])
}

/// A character can be drawn: it is sized, and its colour is one that there is.
pub open spec fn drawable(p: PlacedView) -> bool {
    sized(p) && component::style_ok(p.style)
}

/// Every character of a line can be drawn.
pub open spec fn line_ok(line: Seq<PlacedView>) -> bool {
    forall|i: int| 0 <= i < line.len() ==> drawable(#[trigger] line[i])
}

/// The hollow box that stands for a missing glyph.
pub fn tofu() -> (r: Glyph)
    ensures
        r.model() == tofu_view(),
{
    let mut rows: [u16; 16] = [0u16;16];
    for i in 0..8usize
        invariant
            forall|k: int| 0 <= k < i ==> rows@[k] == tofu_view().rows[k],
            forall|k: int| i <= k < 16 ==> rows@[k] == 0,
    {
        rows[i] =
        if i == 0 || i == 7 {
            0xFC00
        } else {
            0x8400
        };
    }
    let g = Glyph { advance: 7, width: 6, height: 8, ascent: 7, unifont: false, rows };
    assert(g.model().rows =~= tofu_view().rows);
    g
}

/// The glyph that a character shows.
pub fn glyph_of(f: &VanillaFont, ch: char) -> (r: Glyph)
    requires
        f.wf(),
    ensures
        r.model() == shown(*f, ch),
        r.model().wf(),
{
    match f.glyph(ch) {
        Some(g) => g,
        None => tofu(),
    }
}

/// The side of the square that a pixel of a glyph becomes.
pub fn block(glyph: &Glyph, scale: u32) -> (r: u32)
    ensures
        r == block_of(glyph.unifont, scale as int),
{
    if glyph.unifont {
        if scale / 2 > 1 {
            scale / 2
        } else {
            1
        }
    } else {
        scale
    }
}

/// The greatest distance from a character to the next one, in pixels.
pub const MAX_ADVANCE: u64 = 0x100_0000_0000;

/// The character in its place.
pub fn place(f: &VanillaFont, ch: char, style: ResolvedStyle, scale: u32) -> (r: Placed)
    requires
        f.wf(),
    ensures
        r.model() == placed(*f, ch, style, scale as int),
        r.advance <= MAX_ADVANCE,
        scale <= MAX_SCALE && component::style_ok(style) ==> drawable(r.model()),
{
    let glyph = glyph_of(f, ch);
    let extra: u64 = if style.bold {
        block(&glyph, scale) as u64
    } else {
        0
    };
    proof {
        assert(0 <= glyph.advance * scale <= 255 * scale) by (nonlinear_arith)
            requires
                0 <= glyph.advance <= 255,
                0 <= scale,
        ;
        assert(extra <= scale || extra <= 1);
        if scale <= MAX_SCALE {
            lemma_placed_sized(*f, ch, style, scale as int);
        }
    }
    Placed { ch, style, glyph, advance: glyph.advance as u64 * scale as u64 + extra }
}

/// The character in its place is sized.
pub proof fn lemma_placed_sized(f: VanillaFont, ch: char, style: ResolvedStyle, scale: int)
    requires
        f.wf(),
        0 <= scale <= MAX_SCALE,
    ensures
        sized(placed(f, ch, style, scale)),
{
    let g = shown(f, ch);
    assert(0 <= g.advance * scale <= 255 * scale) by (nonlinear_arith)
        requires
            0 <= g.advance <= 255,
            0 <= scale,
    ;
}

/// The first characters of a line are no wider than all of it.
pub proof fn lemma_width_of_first(line: Seq<Placed>, n: int)
    requires
        0 <= n <= line.len(),
    ensures
        0 <= width(line_view(line).take(n)) <= width(line_view(line)),
    decreases line.len(),
{
    let all = line_view(line);
    if line.len() > 0 {
        assert(line_view(line.drop_last()) =~= all.drop_last());
        if n == line.len() {
            assert(all.take(n) =~= all);
            lemma_width_of_first(line.drop_last(), n - 1);
            assert(all.drop_last().take(n - 1) =~= all.drop_last());
        } else {
            lemma_width_of_first(line.drop_last(), n);
            assert(all.drop_last().take(n) =~= all.take(n));
        }
    } else {
        assert(all.take(n) =~= all);
    }
}

/// The width of a line.
pub fn line_width(line: &Vec<Placed>) -> (r: u64)
    requires
        width(line_view(line@)) <= u64::MAX,
    ensures
        r == width(line_view(line@)),
{
    let ghost all = line_view(line@);
    let mut w: u64 = 0;
    assert(all.take(0) =~= Seq::empty());
    for i in 0..line.len()
        invariant
            all == line_view(line@),
            width(all) <= u64::MAX,
            w == width(all.take(i as int)),
    {
        proof {
            assert(all.take(i + 1).drop_last() =~= all.take(i as int));
            lemma_width_of_first(line@, i + 1);
        }
        w = w + line[i].advance;
    }
    assert(all.take(all.len() as int) =~= all);
    w
}

/// The width of two parts is that of the whole.
pub proof fn lemma_width_concat(a: Seq<PlacedView>, b: Seq<PlacedView>)
    ensures
        width(a + b) == width(a) + width(b),
    decreases b.len(),
{
    if b.len() == 0 {
        assert(a + b =~= a);
    } else {
        lemma_width_concat(a, b.drop_last());
        assert((a + b).drop_last() =~= a + b.drop_last());
    }
}

/// The width of a line of sized characters is no less than zero, and bounded by its length.
pub proof fn lemma_width_bound(line: Seq<PlacedView>)
    requires
        line_sized(line),
    ensures
        0 <= width(line) <= line.len() * 256 * MAX_SCALE,
    decreases line.len(),
{
    if line.len() > 0 {
        assert forall|i: int| 0 <= i < line.drop_last().len() implies sized(
            #[trigger] line.drop_last()[i],
        ) by {
            assert(line.drop_last()[i] == line[i]);
        }
        lemma_width_bound(line.drop_last());
        assert(sized(line[line.len() - 1]));
    }
}

/// Obfuscated text takes the same room as plain text, whatever glyphs stand in for it.
pub proof fn obfuscation_keeps_the_advance(
    f: VanillaFont,
    ch: char,
    style: ResolvedStyle,
    scale: int,
    on: bool,
)
    ensures
        placed(f, ch, ResolvedStyle { obfuscated: on, ..style }, scale).advance == placed(
            f,
            ch,
            style,
            scale,
        ).advance,
{
}

/// The width of a line that can be drawn is no less than zero, and bounded by its length.
pub proof fn lemma_width_drawable(line: Seq<PlacedView>)
    requires
        line_ok(line),
    ensures
        0 <= width(line) <= line.len() * 256 * MAX_SCALE,
{
    assert forall|i: int| 0 <= i < line.len() implies sized(#[trigger] line[i]) by {
        assert(drawable(line[i]));
    }
    lemma_width_bound(line);
}

} // verus!
