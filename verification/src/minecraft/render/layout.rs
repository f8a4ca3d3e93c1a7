//! Breaking text into lines.
//!
//! All spaces are kept. A line breaks behind its last space, or, where it has none, in front of the
//! character that does not fit any more; so does what a break carries over to the next line. A line
//! feed always breaks. The lines are then put into the order in which they are seen, one by one.

use vstd::prelude::*;
use crate::minecraft::component;
use crate::minecraft::component::{ResolvedStyle, Span, SpanView};
use crate::minecraft::font::VanillaFont;
use crate::minecraft::render::bidi;
use crate::minecraft::render::glyphs;
use crate::minecraft::render::glyphs::{place, Placed, PlacedView};
use crate::minecraft::render::options::MAX_SCALE;
use crate::minecraft::text;

verus! {

/// A text that is being broken: the finished lines, the line at hand, and behind which of its
/// characters it can break.
pub struct Flow {
    pub lines: Seq<Seq<PlacedView>>,
    pub cur: Seq<PlacedView>,
    pub space: Option<nat>,
}

/// The text before its first character.
pub open spec fn start() -> Flow {
    Flow { lines: Seq::empty(), cur: Seq::empty(), space: None }
}

/// The line breaks in front of what comes next: behind its last space, unless that ends the line,
/// else at its end.
pub open spec fn broken(f: Flow) -> Flow {
    match f.space {
        Some(n) => if n < f.cur.len() {
            Flow {
                lines: f.lines.push(f.cur.take(n as int)),
                cur: f.cur.skip(n as int),
                space: None,
            }
        } else {
            Flow { lines: f.lines.push(f.cur), cur: Seq::empty(), space: None }
        },
        None => Flow { lines: f.lines.push(f.cur), cur: Seq::empty(), space: None },
    }
}

/// The character does not fit on the line at hand.
pub open spec fn over(f: Flow, p: PlacedView, max: int) -> bool {
    glyphs::width(f.cur) + p.advance > max && f.cur.len() > 0
}

/// The text with its line broken where the character does not fit on it.
pub open spec fn with_room(f: Flow, p: PlacedView, max: int) -> Flow {
    if over(f, p, max) {
        broken(f)
    } else {
        f
    }
}

/// The text with one more character that is shown. Where the line breaks behind a space and the
/// character does not fit behind what is carried over either, the line breaks once more.
pub open spec fn added(f: Flow, p: PlacedView, max: int) -> Flow {
    let g = with_room(with_room(f, p, max), p, max);
    Flow {
        lines: g.lines,
        cur: g.cur.push(p),
        space: if p.ch == ' ' {
            Some(g.cur.len() + 1)
        } else {
            g.space
        },
    }
}

/// The text with one more character.
pub open spec fn next(
    f: Flow,
    ch: char,
    style: ResolvedStyle,
    font: VanillaFont,
    max: int,
    scale: int,
) -> Flow {
    if ch == '\n' {
        Flow { lines: f.lines.push(f.cur), cur: Seq::empty(), space: None }
    } else if text::is_ctl(ch) {
        f
    } else {
        added(f, glyphs::placed(font, ch, style, scale), max)
    }
}

/// The text with more characters of one style.
pub open spec fn next_all(
    f: Flow,
    t: Seq<char>,
    style: ResolvedStyle,
    font: VanillaFont,
    max: int,
    scale: int,
) -> Flow
    decreases t.len(),
{
    if t.len() == 0 {
        f
    } else {
        next(next_all(f, t.drop_last(), style, font, max, scale), t.last(), style, font, max, scale)
    }
}

/// The text of the spans.
pub open spec fn flow(spans: Seq<SpanView>, font: VanillaFont, max: int, scale: int) -> Flow
    decreases spans.len(),
{
    if spans.len() == 0 {
        start()
    } else {
        next_all(
            flow(spans.drop_last(), font, max, scale),
            spans.last().text,
            spans.last().style,
            font,
            max,
            scale,
        )
    }
}

/// The lines with the one at hand, unless that is empty.
pub open spec fn finished(f: Flow) -> Seq<Seq<PlacedView>> {
    if f.cur.len() > 0 {
        f.lines.push(f.cur)
    } else {
        f.lines
    }
}

/// The width at which lines break, in pixels.
pub open spec fn limit(max_width: int, scale: int) -> int {
    if max_width * scale > u32::MAX {
        u32::MAX as int
    } else {
        max_width * scale
    }
}

/// The first lines, at least one.
pub open spec fn first_lines<T>(lines: Seq<T>, max_lines: int) -> Seq<T> {
    let n = if max_lines < 1 {
        1
    } else {
        max_lines
    };
    if lines.len() <= n {
        lines
    } else {
        lines.take(n)
    }
}

/// How many lines are laid out.
pub open spec fn line_count(
    spans: Seq<SpanView>,
    font: VanillaFont,
    max_width: int,
    max_lines: int,
    scale: int,
) -> nat {
    first_lines(finished(flow(spans, font, limit(max_width, scale), scale)), max_lines).len()
}

/// The lines of the spans as they are seen.
pub open spec fn laid_out(
    spans: Seq<SpanView>,
    font: VanillaFont,
    max_width: int,
    max_lines: int,
    scale: int,
) -> Seq<Seq<PlacedView>> {
    let lines = first_lines(
        finished(flow(spans, font, limit(max_width, scale), scale)),
        max_lines,
    );
    Seq::new(lines.len(), |i: int| bidi::reordered(font, lines[i], scale))
}

/// How many characters the spans have.
pub open spec fn char_count(spans: Seq<SpanView>) -> nat
    decreases spans.len(),
{
    if spans.len() == 0 {
        0
    } else {
        char_count(spans.drop_last()) + spans.last().text.len()
    }
}

/// A text of so many characters can be laid out and drawn.
pub const MAX_CHARS: usize = 0x1000_0000;

/// The greatest width of a line that can be drawn, in pixels.
pub const MAX_WIDTH: u64 = 0x0400_0000_0000_0000;

/// A text that is being broken, in memory.
struct Work {
    lines: Vec<Vec<Placed>>,
    cur: Vec<Placed>,
    cur_w: u64,
    space: Option<usize>,
}

/// Every line can be drawn.
pub open spec fn lines_ok(lines: Seq<Seq<PlacedView>>) -> bool {
    forall|i: int| 0 <= i < lines.len() ==> glyphs::line_ok(#[trigger] lines[i])
}

/// No line is longer than this.
pub open spec fn lines_within(lines: Seq<Seq<PlacedView>>, n: int) -> bool {
    forall|i: int| 0 <= i < lines.len() ==> (#[trigger] lines[i]).len() <= n
}

impl Work {
    spec fn model(self) -> Flow {
        Flow {
            lines: glyphs::lines_view(self.lines@),
            cur: glyphs::line_view(self.cur@),
            space: match self.space {
                Some(n) => Some(n as nat),
                None => None,
            },
        }
    }

    spec fn wf(self) -> bool {
        &&& self.cur_w == glyphs::width(self.model().cur)
        &&& self.cur_w <= glyphs::MAX_ADVANCE
    }

    /// Every line can be drawn.
    spec fn ok(self) -> bool {
        lines_ok(self.model().lines) && glyphs::line_ok(self.model().cur)
    }

    /// Breaks the line at its end.
    fn end_line(&mut self)
        requires
            old(self).wf(),
        ensures
            final(self).wf(),
            final(self).model() == (Flow {
                lines: old(self).model().lines.push(old(self).model().cur),
                cur: Seq::empty(),
                space: None,
            }),
            final(self).cur@.len() == 0,
            old(self).ok() ==> final(self).ok(),
    {
        let ghost before = self.model();
        let mut line: Vec<Placed> = Vec::new();
        line.append(&mut self.cur);
        self.lines.push(line);
        self.cur_w = 0;
        self.space = None;
        proof {
            assert(glyphs::lines_view(self.lines@) =~= before.lines.push(before.cur));
            assert(glyphs::line_view(self.cur@) =~= Seq::empty());
            if old(self).ok() {
                lemma_lines_ok_push(before.lines, before.cur);
            }
        }
    }

    /// Breaks the line behind its last space, or at its end.
    fn break_line(&mut self)
        requires
            old(self).wf(),
        ensures
            final(self).wf(),
            final(self).model() == broken(old(self).model()),
            final(self).cur@.len() <= old(self).cur@.len(),
            old(self).ok() ==> final(self).ok(),
    {
        let ghost before = self.model();
        let n: usize = match self.space {
            Some(n) => n,
            None => self.cur.len(),
        };
        if n >= self.cur.len() {
            self.end_line();
            return;
        }
        let rest = self.cur.split_off(n);
        let ghost head = glyphs::line_view(self.cur@);
        proof {
            assert(head =~= before.cur.take(n as int));
            assert(glyphs::line_view(rest@) =~= before.cur.skip(n as int));
            assert(before.cur =~= head + glyphs::line_view(rest@));
            glyphs::lemma_width_concat(head, glyphs::line_view(rest@));
            glyphs::lemma_width_of_first(self.cur@, 0);
        }
        let mut line: Vec<Placed> = Vec::new();
        line.append(&mut self.cur);
        self.lines.push(line);
        self.cur_w = glyphs::line_width(&rest);
        self.cur = rest;
        self.space = None;
        proof {
            assert(glyphs::lines_view(self.lines@) =~= before.lines.push(head));
            if old(self).ok() {
                let tail = glyphs::line_view(self.cur@);
                assert forall|i: int| 0 <= i < head.len() implies glyphs::drawable(
                    #[trigger] head[i],
                ) by {
                    assert(head[i] == before.cur[i]);
                }
                assert forall|i: int| 0 <= i < tail.len() implies glyphs::drawable(
                    #[trigger] tail[i],
                ) by {
                    assert(tail[i] == before.cur[n + i]);
                }
                lemma_lines_ok_push(before.lines, head);
            }
        }
    }

    /// Adds a character.
    fn push_char(&mut self, ch: char, style: ResolvedStyle, font: &VanillaFont, max: u32, scale: u32)
        requires
            old(self).wf(),
            font.wf(),
        ensures
            final(self).wf(),
            final(self).model() == next(
                old(self).model(),
                ch,
                style,
                *font,
                max as int,
                scale as int,
            ),
            final(self).cur@.len() <= old(self).cur@.len() + 1,
            old(self).ok() && scale <= MAX_SCALE && component::style_ok(style) ==> final(self).ok(),
    {
        proof {
            assert(text::is_ctl('\n'));
        }
        if ch == '\n' {
            self.end_line();
            return;
        }
        if text::is_control(ch) {
            return;
        }
        let p = place(font, ch, style, scale);
        if self.cur_w + p.advance > max as u64 && self.cur.len() > 0 {
            self.break_line();
        }
        if self.cur_w + p.advance > max as u64 && self.cur.len() > 0 {
            self.break_line();
        }
        let ghost mid = *self;
        self.cur.push(p);
        self.cur_w = self.cur_w + p.advance;
        if ch == ' ' {
            self.space = Some(self.cur.len());
        }
        proof {
            let line = glyphs::line_view(self.cur@);
            let before = mid.model().cur;
            assert(line =~= before.push(p.model()));
            assert(line.drop_last() =~= before);
            if mid.ok() && glyphs::drawable(p.model()) {
                assert forall|i: int| 0 <= i < line.len() implies glyphs::drawable(
                    #[trigger] line[i],
                ) by {
                    if i < before.len() {
                        assert(glyphs::drawable(before[i]));
                    }
                }
            }
        }
    }
}

proof fn lemma_lines_ok_push(lines: Seq<Seq<PlacedView>>, line: Seq<PlacedView>)
    requires
        lines_ok(lines),
        glyphs::line_ok(line),
    ensures
        lines_ok(lines.push(line)),
{
    assert forall|i: int| 0 <= i < lines.push(line).len() implies glyphs::line_ok(
        #[trigger] lines.push(line)[i],
    ) by {
        if i < lines.len() {
            assert(glyphs::line_ok(lines[i]));
        }
    }
}

proof fn lemma_next_within(
    f: Flow,
    ch: char,
    style: ResolvedStyle,
    font: VanillaFont,
    max: int,
    scale: int,
    n: int,
)
    requires
        lines_within(f.lines, n),
        f.cur.len() <= n,
    ensures
        lines_within(next(f, ch, style, font, max, scale).lines, n),
        next(f, ch, style, font, max, scale).cur.len() <= n + 1,
{
    if ch == '\n' {
        assert forall|i: int| 0 <= i < f.lines.len() + 1 implies (#[trigger] f.lines.push(
            f.cur,
        )[i]).len() <= n by {
            if i < f.lines.len() {
                assert(f.lines[i].len() <= n);
            }
        }
    } else if !text::is_ctl(ch) {
        let p = glyphs::placed(font, ch, style, scale);
        lemma_broken_within(f, n);
        lemma_broken_within(with_room(f, p, max), n);
    }
}

proof fn lemma_broken_within(f: Flow, n: int)
    requires
        lines_within(f.lines, n),
        f.cur.len() <= n,
    ensures
        lines_within(broken(f).lines, n),
        broken(f).cur.len() <= n,
{
    let g = broken(f);
    assert forall|i: int| 0 <= i < g.lines.len() implies (#[trigger] g.lines[i]).len() <= n by {
        if i < f.lines.len() {
            assert(g.lines[i] == f.lines[i]);
        }
    }
}

/// Breaks the spans into lines and puts these into the order in which they are seen.
pub fn layout(
    font: &VanillaFont,
    spans: &[Span],
    max_width: u32,
    max_lines: usize,
    scale: u32,
) -> (r: Vec<Vec<Placed>>)
    requires
        font.wf(),
    ensures
        glyphs::lines_view(r@) == laid_out(
            component::span_views(spans@),
            *font,
            max_width as int,
            max_lines as int,
            scale as int,
        ),
        scale <= MAX_SCALE && component::spans_ok(component::span_views(spans@)) ==> lines_ok(
            glyphs::lines_view(r@),
        ),
        lines_within(
            glyphs::lines_view(r@),
            4 * char_count(component::span_views(spans@)) as int,
        ),
        r@.len() <= char_count(component::span_views(spans@)),
        r@.len() <= (if max_lines < 1 {
            1
        } else {
            max_lines as int
        }),
        r@.len() == line_count(
            component::span_views(spans@),
            *font,
            max_width as int,
            max_lines as int,
            scale as int,
        ),
{
    let ghost all = component::span_views(spans@);
    assert(0 <= max_width * scale) by (nonlinear_arith)
        requires
            0 <= max_width,
            0 <= scale,
    ;
    assert(max_width * scale <= 0xFFFF_FFFF * 0xFFFF_FFFF) by (nonlinear_arith)
        requires
            0 <= max_width <= 0xFFFF_FFFF,
            0 <= scale <= 0xFFFF_FFFF,
    ;
    let wide: u64 = max_width as u64 * scale as u64;
    let max: u32 = if wide > 0xFFFF_FFFF {
        0xFFFF_FFFF
    } else {
        wide as u32
    };
    let ghost ok = scale <= MAX_SCALE && component::spans_ok(all);
    let mut work = Work { lines: Vec::new(), cur: Vec::new(), cur_w: 0, space: None };
    proof {
        assert(glyphs::lines_view(work.lines@) =~= Seq::empty());
        assert(glyphs::line_view(work.cur@) =~= Seq::empty());
        assert(all.take(0) =~= Seq::empty());
    }
    for i in 0..spans.len()
        invariant
            all == component::span_views(spans@),
            font.wf(),
            ok == (scale <= MAX_SCALE && component::spans_ok(all)),
            max == limit(max_width as int, scale as int),
            work.wf(),
            ok ==> work.ok(),
            work.model() == flow(all.take(i as int), *font, max as int, scale as int),
            lines_within(work.model().lines, char_count(all.take(i as int)) as int),
            work.cur@.len() <= char_count(all.take(i as int)),
    {
        let ghost done = char_count(all.take(i as int));
        proof {
            assert(all.take(i + 1).drop_last() =~= all.take(i as int));
            lemma_char_count_prefix(all, (i + 1) as nat);
        }
        let style = spans[i].style;
        assert(ok ==> component::style_ok(all[i as int].style));
        let chars = text::chars_of(spans[i].text.as_str());
        let ghost t = chars@;
        let ghost before = work.model();
        assert(t.take(0) =~= Seq::empty());
        for k in 0..chars.len()
            invariant
                font.wf(),
                ok ==> scale <= MAX_SCALE && component::style_ok(style),
                t == chars@,
                work.wf(),
                ok ==> work.ok(),
                work.model() == next_all(
                    before,
                    t.take(k as int),
                    style,
                    *font,
                    max as int,
                    scale as int,
                ),
                lines_within(work.model().lines, done + k),
                work.cur@.len() <= done + k,
        {
            proof {
                assert(t.take(k + 1).drop_last() =~= t.take(k as int));
                assert(work.model().cur.len() == work.cur@.len());
                lemma_next_within(
                    work.model(),
                    chars@[k as int],
                    style,
                    *font,
                    max as int,
                    scale as int,
                    (done + k) as int,
                );
            }
            work.push_char(chars[k], style, font, max, scale);
        }
        assert(t.take(t.len() as int) =~= t);
    }
    assert(all.take(all.len() as int) =~= all);
    let ghost end = work.model();
    proof {
        lemma_flow_count(all, *font, max as int, scale as int);
    }
    let Work { lines, cur, cur_w: _, space: _ } = work;
    let mut lines = lines;
    if cur.len() > 0 {
        lines.push(cur);
        proof {
            assert(glyphs::lines_view(lines@) =~= end.lines.push(end.cur));
            if ok {
                lemma_lines_ok_push(end.lines, end.cur);
            }
        }
    }
    let ghost whole = finished(end);
    assert(glyphs::lines_view(lines@) == whole);
    assert(lines_within(whole, char_count(all) as int));
    let keep: usize = if max_lines > 1 {
        max_lines
    } else {
        1
    };
    lines.truncate(keep);
    let ghost kept = first_lines(whole, max_lines as int);
    assert(glyphs::lines_view(lines@) =~= kept);
    let ghost goal = laid_out(
        all,
        *font,
        max_width as int,
        max_lines as int,
        scale as int,
    );
    proof {
        assert forall|i: int| 0 <= i < kept.len() implies (ok ==> glyphs::line_ok(
            #[trigger] kept[i],
        )) && kept[i].len() <= char_count(all) by {
            assert(kept[i] == whole[i]);
        }
    }
    let mut out: Vec<Vec<Placed>> = Vec::new();
    for line in it: lines
        invariant
            it.seq() == lines@,
            font.wf(),
            ok ==> scale <= MAX_SCALE,
            kept == glyphs::lines_view(lines@),
            forall|i: int|
                0 <= i < kept.len() ==> (ok ==> glyphs::line_ok(#[trigger] kept[i])) && kept[i].len()
                    <= char_count(all),
            goal == Seq::new(
                kept.len(),
                |i: int| bidi::reordered(*font, kept[i], scale as int),
            ),
            glyphs::lines_view(out@) =~= goal.take(it.index() as int),
            ok ==> lines_ok(glyphs::lines_view(out@)),
            lines_within(glyphs::lines_view(out@), 4 * char_count(all) as int),
    {
        let ghost k = it.index() as int;
        assert(kept[k] == glyphs::line_view(line@));
        let ghost before = glyphs::lines_view(out@);
        let r = bidi::reorder_bidi(font, line, scale);
        out.push(r);
        proof {
            let new = glyphs::lines_view(out@);
            assert(new =~= before.push(goal[k]));
            if ok {
                lemma_lines_ok_push(before, goal[k]);
            }
            assert forall|i: int| 0 <= i < new.len() implies (#[trigger] new[i]).len() <= 4
                * char_count(all) by {
                if i < before.len() {
                    assert(new[i] == before[i]);
                }
            }
        }
    }
    assert(goal.take(goal.len() as int) =~= goal);
    out
}

/// The first spans have no more characters than all of them.
pub proof fn lemma_char_count_prefix(spans: Seq<SpanView>, k: nat)
    requires
        k <= spans.len(),
    ensures
        char_count(spans.take(k as int)) <= char_count(spans),
    decreases spans.len(),
{
    if k == spans.len() {
        assert(spans.take(k as int) =~= spans);
    } else {
        lemma_char_count_prefix(spans.drop_last(), k);
        assert(spans.drop_last().take(k as int) =~= spans.take(k as int));
    }
}

/// How many lines there are before the one at hand, and characters on that.
spec fn counted(f: Flow) -> nat {
    f.lines.len() + f.cur.len()
}

/// A line breaks behind a character.
spec fn space_behind(f: Flow) -> bool {
    f.space matches Some(n) ==> n >= 1
}

proof fn lemma_next_all_count(
    f: Flow,
    t: Seq<char>,
    style: ResolvedStyle,
    font: VanillaFont,
    max: int,
    scale: int,
)
    requires
        space_behind(f),
    ensures
        space_behind(next_all(f, t, style, font, max, scale)),
        counted(next_all(f, t, style, font, max, scale)) <= counted(f) + t.len(),
    decreases t.len(),
{
    if t.len() > 0 {
        lemma_next_all_count(f, t.drop_last(), style, font, max, scale);
    }
}

proof fn lemma_flow_count(spans: Seq<SpanView>, font: VanillaFont, max: int, scale: int)
    ensures
        space_behind(flow(spans, font, max, scale)),
        counted(flow(spans, font, max, scale)) <= char_count(spans),
    decreases spans.len(),
{
    if spans.len() > 0 {
        lemma_flow_count(spans.drop_last(), font, max, scale);
        lemma_next_all_count(
            flow(spans.drop_last(), font, max, scale),
            spans.last().text,
            spans.last().style,
            font,
            max,
            scale,
        );
    }
}

/// Whether the spans are short enough to be laid out.
pub fn is_short(spans: &[Span]) -> (r: bool)
    ensures
        r == (char_count(component::span_views(spans@)) <= MAX_CHARS),
{
    let ghost all = component::span_views(spans@);
    let mut n: usize = 0;
    assert(all.take(0) =~= Seq::empty());
    for i in 0..spans.len()
        invariant
            all == component::span_views(spans@),
            n == char_count(all.take(i as int)),
            n <= MAX_CHARS,
    {
        proof {
            assert(all.take(i + 1).drop_last() =~= all.take(i as int));
            assert(all.take(i + 1).last() == spans@[i as int].model());
            lemma_char_count_prefix(all, (i + 1) as nat);
        }
        let chars = text::chars_of(spans[i].text.as_str());
        if chars.len() > MAX_CHARS - n {
            return false;
        }
        n = n + chars.len();
    }
    assert(all.take(all.len() as int) =~= all);
    true
}

/// The characters of each line of the spans, in the order in which they are seen.
pub fn visual_lines(
    font: &VanillaFont,
    spans: &[Span],
    max_width: u32,
    max_lines: usize,
    scale: u32,
) -> (r: Vec<String>)
    requires
        font.wf(),
    ensures
        text::views(r@) == laid_out(
            component::span_views(spans@),
            *font,
            max_width as int,
            max_lines as int,
            scale as int,
        ).map_values(|line: Seq<PlacedView>| glyphs::chars(line)),
{
    let lines = layout(font, spans, max_width, max_lines, scale);
    let ghost views = glyphs::lines_view(lines@);
    let ghost goal = views.map_values(|line: Seq<PlacedView>| glyphs::chars(line));
    let mut out: Vec<String> = Vec::new();
    for i in 0..lines.len()
        invariant
            views == glyphs::lines_view(lines@),
            goal == views.map_values(|line: Seq<PlacedView>| glyphs::chars(line)),
            text::views(out@) =~= goal.take(i as int),
    {
        let line = &lines[i];
        let mut s = String::new();
        for k in 0..line.len()
            invariant
                s@ =~= glyphs::chars(glyphs::line_view(line@)).take(k as int),
        {
            s.push(line[k].ch);
        }
        let ghost before = text::views(out@);
        assert(s@ =~= goal[i as int]);
        out.push(s);
        assert(text::views(out@) =~= before.push(goal[i as int]));
    }
    out
}

/// The width of the spans on one line, in pixels.
pub open spec fn measured(spans: Seq<SpanView>, font: VanillaFont, scale: int) -> int {
    let lines = laid_out(spans, font, u32::MAX as int, 1, scale);
    if lines.len() > 0 {
        glyphs::width(lines[0])
    } else {
        0
    }
}

/// The width of the spans on one line, in pixels.
pub fn measure_dev(font: &VanillaFont, spans: &[Span], scale: u32) -> (r: u64)
    requires
        font.wf(),
        scale <= MAX_SCALE,
        char_count(component::span_views(spans@)) <= MAX_CHARS,
    ensures
        r == measured(component::span_views(spans@), *font, scale as int),
        r <= MAX_WIDTH,
{
    let lines = layout(font, spans, 0xFFFF_FFFF, 1, scale);
    let ghost views = glyphs::lines_view(lines@);
    if lines.len() > 0 {
        proof {
            let all = component::span_views(spans@);
            let line = views[0];
            lines_are_set_in_the_font(all, *font, u32::MAX as int, 1, scale as int, 0);
            assert forall|i: int| 0 <= i < line.len() implies glyphs::sized(#[trigger] line[i]) by {
                glyphs::lemma_placed_sized(*font, line[i].ch, line[i].style, scale as int);
            }
            glyphs::lemma_width_bound(line);
            assert(line.len() <= 4 * MAX_CHARS);
        }
        glyphs::line_width(&lines[0])
    } else {
        0
    }
}

// ---- laws ----

/// The characters of a line with their styles.
pub open spec fn line_pairs(line: Seq<PlacedView>) -> Seq<(char, ResolvedStyle)> {
    Seq::new(line.len(), |i: int| (line[i].ch, line[i].style))
}

/// The characters of several lines with their styles, one after the other.
pub open spec fn all_pairs(lines: Seq<Seq<PlacedView>>) -> Seq<(char, ResolvedStyle)>
    decreases lines.len(),
{
    if lines.len() == 0 {
        Seq::empty()
    } else {
        all_pairs(lines.drop_last()) + line_pairs(lines.last())
    }
}

/// The characters of a text that is being broken, with their styles.
pub open spec fn flow_pairs(f: Flow) -> Seq<(char, ResolvedStyle)> {
    all_pairs(f.lines) + line_pairs(f.cur)
}

/// The characters of a text that are shown, in its style.
pub open spec fn visible(t: Seq<char>, style: ResolvedStyle) -> Seq<(char, ResolvedStyle)>
    decreases t.len(),
{
    if t.len() == 0 {
        Seq::empty()
    } else if text::is_ctl(t.last()) {
        visible(t.drop_last(), style)
    } else {
        visible(t.drop_last(), style).push((t.last(), style))
    }
}

/// The characters of the spans that are shown, with their styles.
pub open spec fn visible_pairs(spans: Seq<SpanView>) -> Seq<(char, ResolvedStyle)>
    decreases spans.len(),
{
    if spans.len() == 0 {
        Seq::empty()
    } else {
        visible_pairs(spans.drop_last()) + visible(spans.last().text, spans.last().style)
    }
}

proof fn lemma_next_pairs(
    f: Flow,
    ch: char,
    style: ResolvedStyle,
    font: VanillaFont,
    max: int,
    scale: int,
)
    ensures
        flow_pairs(next(f, ch, style, font, max, scale)) == (if text::is_ctl(ch) {
            flow_pairs(f)
        } else {
            flow_pairs(f).push((ch, style))
        }),
{
    let g = next(f, ch, style, font, max, scale);
    if ch == '\n' {
        assert(g.lines.drop_last() =~= f.lines);
        assert(flow_pairs(g) =~= flow_pairs(f));
    } else if !text::is_ctl(ch) {
        let p = glyphs::placed(font, ch, style, scale);
        let b = with_room(f, p, max);
        lemma_broken_pairs(f);
        lemma_broken_pairs(b);
        assert(flow_pairs(g) =~= flow_pairs(with_room(b, p, max)).push((ch, style)));
    }
}

proof fn lemma_broken_pairs(f: Flow)
    ensures
        flow_pairs(broken(f)) == flow_pairs(f),
{
    assert(broken(f).lines.drop_last() =~= f.lines);
    assert(flow_pairs(broken(f)) =~= flow_pairs(f));
}

proof fn lemma_next_all_pairs(
    f: Flow,
    t: Seq<char>,
    style: ResolvedStyle,
    font: VanillaFont,
    max: int,
    scale: int,
)
    ensures
        flow_pairs(next_all(f, t, style, font, max, scale)) == flow_pairs(f) + visible(t, style),
    decreases t.len(),
{
    if t.len() > 0 {
        let before = t.drop_last();
        lemma_next_all_pairs(f, before, style, font, max, scale);
        lemma_next_pairs(
            next_all(f, before, style, font, max, scale),
            t.last(),
            style,
            font,
            max,
            scale,
        );
    }
    assert(flow_pairs(next_all(f, t, style, font, max, scale)) =~= flow_pairs(f) + visible(
        t,
        style,
    ));
}

/// Breaking text into lines loses no character and no style: the lines hold, one after the other,
/// every character of the spans but the control characters, spaces and all, each in its style.
pub proof fn no_character_is_lost(spans: Seq<SpanView>, font: VanillaFont, max: int, scale: int)
    ensures
        all_pairs(finished(flow(spans, font, max, scale))) == visible_pairs(spans),
{
    lemma_flow_pairs(spans, font, max, scale);
    let f = flow(spans, font, max, scale);
    if f.cur.len() > 0 {
        assert(finished(f).drop_last() =~= f.lines);
    } else {
        assert(flow_pairs(f) =~= all_pairs(f.lines));
    }
}

proof fn lemma_flow_pairs(spans: Seq<SpanView>, font: VanillaFont, max: int, scale: int)
    ensures
        flow_pairs(flow(spans, font, max, scale)) == visible_pairs(spans),
    decreases spans.len(),
{
    if spans.len() == 0 {
        assert(flow_pairs(start()) =~= Seq::empty());
    } else {
        let before = spans.drop_last();
        let s = spans.last();
        lemma_flow_pairs(before, font, max, scale);
        lemma_next_all_pairs(
            flow(before, font, max, scale),
            s.text,
            s.style,
            font,
            max,
            scale,
        );
    }
}

/// The line is no wider than the limit, or has no more than one character.
pub open spec fn line_fits(line: Seq<PlacedView>, max: int) -> bool {
    line.len() <= 1 || glyphs::width(line) <= max
}

/// Every finished line fits, and so does the line at hand.
pub open spec fn flow_fits(f: Flow, max: int) -> bool {
    &&& forall|i: int| 0 <= i < f.lines.len() ==> line_fits(#[trigger] f.lines[i], max)
    &&& line_fits(f.cur, max)
    &&& glyphs::line_forward(f.cur)
}

proof fn lemma_broken_fits(f: Flow, max: int)
    requires
        flow_fits(f, max),
    ensures
        flow_fits(broken(f), max),
{
    let g = broken(f);
    if f.space is Some && f.space->0 < f.cur.len() {
        let n = f.space->0 as int;
        let head = f.cur.take(n);
        let tail = f.cur.skip(n);
        assert(head + tail =~= f.cur);
        glyphs::lemma_width_concat(head, tail);
        assert forall|i: int| 0 <= i < head.len() implies (#[trigger] head[i]).advance >= 0 by {
            assert(head[i] == f.cur[i]);
        }
        assert forall|i: int| 0 <= i < tail.len() implies (#[trigger] tail[i]).advance >= 0 by {
            assert(tail[i] == f.cur[n + i]);
        }
        glyphs::lemma_width_forward(head);
        glyphs::lemma_width_forward(tail);
    }
    assert forall|i: int| 0 <= i < g.lines.len() implies line_fits(#[trigger] g.lines[i], max) by {
        if i < f.lines.len() {
            assert(line_fits(f.lines[i], max));
        }
    }
}

proof fn lemma_next_fits(
    f: Flow,
    ch: char,
    style: ResolvedStyle,
    font: VanillaFont,
    max: int,
    scale: int,
)
    requires
        0 <= scale,
        flow_fits(f, max),
    ensures
        flow_fits(next(f, ch, style, font, max, scale), max),
{
    let g = next(f, ch, style, font, max, scale);
    if ch == '\n' {
        assert forall|i: int| 0 <= i < g.lines.len() implies line_fits(
            #[trigger] g.lines[i],
            max,
        ) by {
            if i < f.lines.len() {
                assert(line_fits(f.lines[i], max));
            }
        }
    } else if !text::is_ctl(ch) {
        let p = glyphs::placed(font, ch, style, scale);
        glyphs::lemma_placed_forward(font, ch, style, scale);
        let b = with_room(f, p, max);
        let c = with_room(b, p, max);
        lemma_broken_fits(f, max);
        lemma_broken_fits(b, max);
        assert(!over(c, p, max));
        assert(g.cur.drop_last() =~= c.cur);
        assert forall|i: int| 0 <= i < g.cur.len() implies (#[trigger] g.cur[i]).advance >= 0 by {
            if i < c.cur.len() {
                assert(c.cur[i].advance >= 0);
            }
        }
    }
}

proof fn lemma_next_all_fits(
    f: Flow,
    t: Seq<char>,
    style: ResolvedStyle,
    font: VanillaFont,
    max: int,
    scale: int,
)
    requires
        0 <= scale,
        flow_fits(f, max),
    ensures
        flow_fits(next_all(f, t, style, font, max, scale), max),
    decreases t.len(),
{
    if t.len() > 0 {
        lemma_next_all_fits(f, t.drop_last(), style, font, max, scale);
        lemma_next_fits(
            next_all(f, t.drop_last(), style, font, max, scale),
            t.last(),
            style,
            font,
            max,
            scale,
        );
    }
}

proof fn lemma_flow_fits(spans: Seq<SpanView>, font: VanillaFont, max: int, scale: int)
    requires
        0 <= scale,
    ensures
        flow_fits(flow(spans, font, max, scale), max),
    decreases spans.len(),
{
    if spans.len() > 0 {
        lemma_flow_fits(spans.drop_last(), font, max, scale);
        lemma_next_all_fits(
            flow(spans.drop_last(), font, max, scale),
            spans.last().text,
            spans.last().style,
            font,
            max,
            scale,
        );
    }
}

/// No line of more than one character is wider than the limit, before it is put into the order in
/// which it is seen.
pub proof fn broken_lines_fit(
    spans: Seq<SpanView>,
    font: VanillaFont,
    max: int,
    scale: int,
    i: int,
)
    requires
        0 <= scale,
        0 <= i < finished(flow(spans, font, max, scale)).len(),
    ensures
        line_fits(finished(flow(spans, font, max, scale))[i], max),
{
    lemma_flow_fits(spans, font, max, scale);
}

proof fn lemma_pairs_contain(lines: Seq<Seq<PlacedView>>, i: int, k: int)
    requires
        0 <= i < lines.len(),
        0 <= k < lines[i].len(),
    ensures
        exists|j: int|
            0 <= j < all_pairs(lines).len() && (#[trigger] all_pairs(lines)[j]).0 == lines[i][k].ch,
    decreases lines.len(),
{
    let before = all_pairs(lines.drop_last());
    if i == lines.len() - 1 {
        assert(all_pairs(lines)[before.len() + k].0 == lines[i][k].ch);
    } else {
        lemma_pairs_contain(lines.drop_last(), i, k);
        let j = choose|j: int| 0 <= j < before.len() && (#[trigger] before[j]).0 == lines[i][k].ch;
        assert(all_pairs(lines)[j].0 == lines[i][k].ch);
    }
}

proof fn lemma_visible_in(t: Seq<char>, style: ResolvedStyle, j: int)
    requires
        0 <= j < visible(t, style).len(),
    ensures
        t.contains(visible(t, style)[j].0),
    decreases t.len(),
{
    let before = t.drop_last();
    if j < visible(before, style).len() {
        lemma_visible_in(before, style, j);
        let c = visible(before, style)[j].0;
        let h = choose|h: int| 0 <= h < before.len() && before[h] == c;
        assert(t[h] == c);
    } else {
        assert(t[t.len() - 1] == visible(t, style)[j].0);
    }
}

proof fn lemma_visible_pairs_in(spans: Seq<SpanView>, j: int)
    requires
        0 <= j < visible_pairs(spans).len(),
    ensures
        component::texts(spans).contains(visible_pairs(spans)[j].0),
    decreases spans.len(),
{
    let before = spans.drop_last();
    let n = visible_pairs(before).len();
    let c = visible_pairs(spans)[j].0;
    let all = component::texts(spans);
    let first = component::texts(before);
    if j < n {
        lemma_visible_pairs_in(before, j);
        let h = choose|h: int| 0 <= h < first.len() && first[h] == c;
        assert(all[h] == c);
    } else {
        let s = spans.last();
        lemma_visible_in(s.text, s.style, j - n);
        let h = choose|h: int| 0 <= h < s.text.len() && s.text[h] == c;
        assert(all[first.len() + h] == c);
    }
}

/// The lines of a text without right-to-left characters have none.
pub proof fn plain_lines_have_no_rtl(
    spans: Seq<SpanView>,
    font: VanillaFont,
    max: int,
    scale: int,
    i: int,
)
    requires
        forall|k: int|
            0 <= k < component::texts(spans).len() ==> !bidi::is_rtl(
                #[trigger] component::texts(spans)[k],
            ),
        0 <= i < finished(flow(spans, font, max, scale)).len(),
    ensures
        forall|k: int|
            0 <= k < finished(flow(spans, font, max, scale))[i].len() ==> !bidi::is_rtl(
                (#[trigger] finished(flow(spans, font, max, scale))[i][k]).ch,
            ),
{
    let lines = finished(flow(spans, font, max, scale));
    let line = lines[i];
    no_character_is_lost(spans, font, max, scale);
    assert forall|k: int| 0 <= k < line.len() implies !bidi::is_rtl((#[trigger] line[k]).ch) by {
        lemma_pairs_contain(lines, i, k);
        let all = component::texts(spans);
        let pairs = visible_pairs(spans);
        let j = choose|j: int| 0 <= j < pairs.len() && (#[trigger] pairs[j]).0 == line[k].ch;
        lemma_visible_pairs_in(spans, j);
        let h = choose|h: int| 0 <= h < all.len() && all[h] == line[k].ch;
        assert(!bidi::is_rtl(all[h]));
    }
}

/// Text without right-to-left characters is laid out on no more lines than allowed, but at least
/// one is allowed, and none of more than one character is wider than the limit.
pub proof fn lines_fit(
    spans: Seq<SpanView>,
    font: VanillaFont,
    max_width: int,
    max_lines: int,
    scale: int,
    i: int,
)
    requires
        0 <= scale,
        forall|k: int|
            0 <= k < component::texts(spans).len() ==> !bidi::is_rtl(
                #[trigger] component::texts(spans)[k],
            ),
        0 <= i < laid_out(spans, font, max_width, max_lines, scale).len(),
    ensures
        laid_out(spans, font, max_width, max_lines, scale).len() <= (if max_lines < 1 {
            1
        } else {
            max_lines
        }),
        line_fits(laid_out(spans, font, max_width, max_lines, scale)[i], max_width * scale),
{
    let max = limit(max_width, scale);
    let lines = finished(flow(spans, font, max, scale));
    let line = lines[i];
    broken_lines_fit(spans, font, max, scale, i);
    no_character_is_lost(spans, font, max, scale);
    assert forall|k: int| 0 <= k < line.len() implies !bidi::is_rtl(#[trigger] line[k].ch) by {
        lemma_pairs_contain(lines, i, k);
        let all = component::texts(spans);
        let pairs = visible_pairs(spans);
        let j = choose|j: int| 0 <= j < pairs.len() && (#[trigger] pairs[j]).0 == line[k].ch;
        lemma_visible_pairs_in(spans, j);
        let h = choose|h: int| 0 <= h < all.len() && all[h] == line[k].ch;
        assert(!bidi::is_rtl(all[h]));
    }
}

/// Where the line at hand can break is behind its last space.
pub open spec fn space_is_last(f: Flow) -> bool {
    match f.space {
        Some(n) => {
            &&& 1 <= n <= f.cur.len()
            &&& f.cur[n - 1].ch == ' '
            &&& forall|k: int| n <= k < f.cur.len() ==> (#[trigger] f.cur[k]).ch != ' '
        },
        None => forall|k: int| 0 <= k < f.cur.len() ==> (#[trigger] f.cur[k]).ch != ' ',
    }
}

/// The line ends with a space, or has none.
pub open spec fn ends_with_space(line: Seq<PlacedView>) -> bool {
    line.len() > 0 && (line.last().ch == ' ' || forall|k: int|
        0 <= k < line.len() ==> (#[trigger] line[k]).ch != ' ')
}

/// Every finished line ends with a space, or has none.
pub open spec fn breaks_at_spaces(f: Flow) -> bool {
    &&& forall|i: int| 0 <= i < f.lines.len() ==> ends_with_space(#[trigger] f.lines[i])
    &&& space_is_last(f)
}

proof fn lemma_broken_at_space(f: Flow)
    requires
        breaks_at_spaces(f),
        f.cur.len() > 0,
    ensures
        breaks_at_spaces(broken(f)),
{
    let g = broken(f);
    let n = f.lines.len();
    assert forall|i: int| 0 <= i < g.lines.len() implies ends_with_space(
        #[trigger] g.lines[i],
    ) by {
        if i < n {
            assert(ends_with_space(f.lines[i]));
        } else if f.space is Some {
            assert(g.lines[i].last() == f.cur[f.space->0 - 1]);
        }
    }
}

proof fn lemma_next_at_space(
    f: Flow,
    ch: char,
    style: ResolvedStyle,
    font: VanillaFont,
    max: int,
    scale: int,
)
    requires
        breaks_at_spaces(f),
        ch != '\n',
    ensures
        breaks_at_spaces(next(f, ch, style, font, max, scale)),
{
    if !text::is_ctl(ch) {
        let p = glyphs::placed(font, ch, style, scale);
        let b = with_room(f, p, max);
        if over(f, p, max) {
            lemma_broken_at_space(f);
        }
        if over(b, p, max) {
            lemma_broken_at_space(b);
        }
        let c = with_room(b, p, max);
        let g = added(f, p, max);
        assert(forall|k: int| 0 <= k < c.cur.len() ==> g.cur[k] == #[trigger] c.cur[k]);
    }
}

proof fn lemma_next_all_at_space(
    f: Flow,
    t: Seq<char>,
    style: ResolvedStyle,
    font: VanillaFont,
    max: int,
    scale: int,
)
    requires
        breaks_at_spaces(f),
        !t.contains('\n'),
    ensures
        breaks_at_spaces(next_all(f, t, style, font, max, scale)),
    decreases t.len(),
{
    if t.len() > 0 {
        let before = t.drop_last();
        assert(!before.contains('\n')) by {
            if before.contains('\n') {
                let k = choose|k: int| 0 <= k < before.len() && before[k] == '\n';
                assert(t[k] == '\n');
            }
        }
        lemma_next_all_at_space(f, before, style, font, max, scale);
        assert(t.contains(t.last()));
        lemma_next_at_space(
            next_all(f, before, style, font, max, scale),
            t.last(),
            style,
            font,
            max,
            scale,
        );
    }
}

proof fn lemma_flow_at_space(spans: Seq<SpanView>, font: VanillaFont, max: int, scale: int)
    requires
        forall|k: int| 0 <= k < spans.len() ==> !(#[trigger] spans[k]).text.contains('\n'),
    ensures
        breaks_at_spaces(flow(spans, font, max, scale)),
    decreases spans.len(),
{
    if spans.len() > 0 {
        let before = spans.drop_last();
        assert forall|k: int| 0 <= k < before.len() implies !(#[trigger] before[k]).text.contains(
            '\n',
        ) by {
            assert(before[k] == spans[k]);
        }
        lemma_flow_at_space(before, font, max, scale);
        assert(!spans[spans.len() - 1].text.contains('\n'));
        lemma_next_all_at_space(
            flow(before, font, max, scale),
            spans.last().text,
            spans.last().style,
            font,
            max,
            scale,
        );
    }
}

/// Text breaks at spaces first: without line feeds, every line but the last ends with a space or
/// has none.
pub proof fn lines_break_at_spaces_first(
    spans: Seq<SpanView>,
    font: VanillaFont,
    max: int,
    scale: int,
    i: int,
)
    requires
        forall|k: int| 0 <= k < spans.len() ==> !(#[trigger] spans[k]).text.contains('\n'),
        0 <= i < finished(flow(spans, font, max, scale)).len() - 1,
    ensures
        ends_with_space(finished(flow(spans, font, max, scale))[i]),
{
    lemma_flow_at_space(spans, font, max, scale);
    let f = flow(spans, font, max, scale);
    assert(ends_with_space(f.lines[i]));
}

/// Every character of the line is set in the font.
pub open spec fn line_set(line: Seq<PlacedView>, font: VanillaFont, scale: int) -> bool {
    forall|i: int|
        0 <= i < line.len() ==> #[trigger] line[i] == glyphs::placed(
            font,
            line[i].ch,
            line[i].style,
            scale,
        )
}

/// Every character of the text is set in the font.
spec fn flow_set(f: Flow, font: VanillaFont, scale: int) -> bool {
    &&& forall|i: int| 0 <= i < f.lines.len() ==> line_set(#[trigger] f.lines[i], font, scale)
    &&& line_set(f.cur, font, scale)
}

proof fn lemma_broken_set(f: Flow, font: VanillaFont, scale: int)
    requires
        flow_set(f, font, scale),
    ensures
        flow_set(broken(f), font, scale),
{
    let g = broken(f);
    assert forall|i: int| 0 <= i < g.lines.len() implies line_set(
        #[trigger] g.lines[i],
        font,
        scale,
    ) by {
        if i < f.lines.len() {
            assert(line_set(f.lines[i], font, scale));
        } else {
            assert forall|k: int| 0 <= k < g.lines[i].len() implies #[trigger] g.lines[i][k]
                == glyphs::placed(font, g.lines[i][k].ch, g.lines[i][k].style, scale) by {
                assert(g.lines[i][k] == f.cur[k]);
            }
        }
    }
    assert forall|k: int| 0 <= k < g.cur.len() implies #[trigger] g.cur[k] == glyphs::placed(
        font,
        g.cur[k].ch,
        g.cur[k].style,
        scale,
    ) by {
        assert(g.cur[k] == f.cur[f.space->0 + k]);
    }
}

proof fn lemma_next_set(
    f: Flow,
    ch: char,
    style: ResolvedStyle,
    font: VanillaFont,
    max: int,
    scale: int,
)
    requires
        flow_set(f, font, scale),
    ensures
        flow_set(next(f, ch, style, font, max, scale), font, scale),
{
    let g = next(f, ch, style, font, max, scale);
    if ch == '\n' {
        assert forall|i: int| 0 <= i < g.lines.len() implies line_set(
            #[trigger] g.lines[i],
            font,
            scale,
        ) by {
            if i < f.lines.len() {
                assert(line_set(f.lines[i], font, scale));
            }
        }
    } else if !text::is_ctl(ch) {
        let p = glyphs::placed(font, ch, style, scale);
        let b = with_room(f, p, max);
        lemma_broken_set(f, font, scale);
        lemma_broken_set(b, font, scale);
        let c = with_room(b, p, max);
        assert forall|k: int| 0 <= k < g.cur.len() implies #[trigger] g.cur[k] == glyphs::placed(
            font,
            g.cur[k].ch,
            g.cur[k].style,
            scale,
        ) by {
            if k < c.cur.len() {
                assert(g.cur[k] == c.cur[k]);
            }
        }
    }
}

proof fn lemma_next_all_set(
    f: Flow,
    t: Seq<char>,
    style: ResolvedStyle,
    font: VanillaFont,
    max: int,
    scale: int,
)
    requires
        flow_set(f, font, scale),
    ensures
        flow_set(next_all(f, t, style, font, max, scale), font, scale),
    decreases t.len(),
{
    if t.len() > 0 {
        lemma_next_all_set(f, t.drop_last(), style, font, max, scale);
        lemma_next_set(
            next_all(f, t.drop_last(), style, font, max, scale),
            t.last(),
            style,
            font,
            max,
            scale,
        );
    }
}

proof fn lemma_flow_set(spans: Seq<SpanView>, font: VanillaFont, max: int, scale: int)
    ensures
        flow_set(flow(spans, font, max, scale), font, scale),
    decreases spans.len(),
{
    if spans.len() > 0 {
        lemma_flow_set(spans.drop_last(), font, max, scale);
        lemma_next_all_set(
            flow(spans.drop_last(), font, max, scale),
            spans.last().text,
            spans.last().style,
            font,
            max,
            scale,
        );
    }
}

/// Every character that is laid out is set in the font, also one that took another form.
pub proof fn lines_are_set_in_the_font(
    spans: Seq<SpanView>,
    font: VanillaFont,
    max_width: int,
    max_lines: int,
    scale: int,
    i: int,
)
    requires
        0 <= i < laid_out(spans, font, max_width, max_lines, scale).len(),
    ensures
        line_set(laid_out(spans, font, max_width, max_lines, scale)[i], font, scale),
{
    let max = limit(max_width, scale);
    lemma_flow_set(spans, font, max, scale);
    let lines = finished(flow(spans, font, max, scale));
    assert(line_set(lines[i], font, scale));
}

// ---- when lines break ----

proof fn lemma_take_width(line: Seq<PlacedView>, n: int, m: int)
    requires
        glyphs::line_forward(line),
        0 <= n <= m <= line.len(),
    ensures
        0 <= glyphs::width(line.take(n)) <= glyphs::width(line.take(m)) <= glyphs::width(line),
{
    let a = line.take(n);
    let b = line.subrange(n, m);
    let c = line.skip(m);
    assert(a + b =~= line.take(m));
    assert(line.take(m) + c =~= line);
    glyphs::lemma_width_concat(a, b);
    glyphs::lemma_width_concat(line.take(m), c);
    assert forall|i: int| 0 <= i < a.len() implies (#[trigger] a[i]).advance >= 0 by {
        assert(a[i] == line[i]);
    }
    assert forall|i: int| 0 <= i < b.len() implies (#[trigger] b[i]).advance >= 0 by {
        assert(b[i] == line[n + i]);
    }
    assert forall|i: int| 0 <= i < c.len() implies (#[trigger] c[i]).advance >= 0 by {
        assert(c[i] == line[m + i]);
    }
    glyphs::lemma_width_forward(a);
    glyphs::lemma_width_forward(b);
    glyphs::lemma_width_forward(c);
}

/// The advance of the first character of the line number `i`; the line at hand counts as the last.
pub open spec fn first_advance(lines: Seq<Seq<PlacedView>>, cur: Seq<PlacedView>, i: int) -> int {
    if i < lines.len() {
        lines[i][0].advance
    } else if i == lines.len() && cur.len() > 0 {
        cur[0].advance
    } else {
        0
    }
}

/// The line at hand, up to a place behind which it may break, did not fit on the line before it.
spec fn last_is_full(f: Flow, max: int, m: int) -> bool {
    &&& 1 <= m <= f.cur.len()
    &&& f.space matches Some(k) ==> m <= k
    &&& glyphs::width(f.lines.last()) + glyphs::width(f.cur.take(m)) > max
}

/// No line was broken for want of anything but room.
spec fn flow_full(f: Flow, max: int) -> bool {
    &&& forall|i: int|
        0 <= i < f.lines.len() ==> (#[trigger] f.lines[i]).len() > 0 && glyphs::line_forward(
            f.lines[i],
        )
    &&& glyphs::line_forward(f.cur)
    &&& f.space matches Some(k) ==> 1 <= k <= f.cur.len()
    &&& f.lines.len() > 0 ==> exists|m: int| last_is_full(f, max, m)
    &&& forall|i: int|
        0 <= i < f.lines.len() - 1 ==> glyphs::width(#[trigger] f.lines[i]) + glyphs::width(
            f.lines[i + 1],
        ) + first_advance(f.lines, f.cur, i + 2) > max
}

proof fn lemma_next_full(
    f: Flow,
    ch: char,
    style: ResolvedStyle,
    font: VanillaFont,
    max: int,
    scale: int,
)
    requires
        0 <= scale,
        ch != '\n',
        flow_full(f, max),
    ensures
        flow_full(next(f, ch, style, font, max, scale), max),
{
    if !text::is_ctl(ch) {
        let p = glyphs::placed(font, ch, style, scale);
        glyphs::lemma_placed_forward(font, ch, style, scale);
        if !over(f, p, max) {
            lemma_full_push(f, p, max);
        } else {
            lemma_full_break(f, p, max);
        }
    }
}

proof fn lemma_forward_push(line: Seq<PlacedView>, p: PlacedView)
    requires
        glyphs::line_forward(line),
        p.advance >= 0,
    ensures
        glyphs::line_forward(line.push(p)),
        glyphs::width(line.push(p)) == glyphs::width(line) + p.advance,
        line.push(p).take(line.len() as int + 1) == line.push(p),
{
    assert(line.push(p).drop_last() =~= line);
    assert(line.push(p).take(line.len() as int + 1) =~= line.push(p));
    assert forall|i: int| 0 <= i < line.push(p).len() implies (
    #[trigger] line.push(p)[i]).advance >= 0 by {
        if i < line.len() {
            assert(line[i].advance >= 0);
        }
    }
}

proof fn lemma_full_push(f: Flow, p: PlacedView, max: int)
    requires
        flow_full(f, max),
        p.advance >= 0,
        !over(f, p, max),
    ensures
        flow_full(added(f, p, max), max),
{
    let g = added(f, p, max);
    lemma_forward_push(f.cur, p);
    if f.lines.len() > 0 {
        let m = choose|m: int| last_is_full(f, max, m);
        assert(g.cur.take(m) =~= f.cur.take(m));
        assert(last_is_full(g, max, m));
    }
}

proof fn lemma_full_break(f: Flow, p: PlacedView, max: int)
    requires
        flow_full(f, max),
        p.advance >= 0,
        over(f, p, max),
    ensures
        flow_full(added(f, p, max), max),
{
    let g = added(f, p, max);
    let n = if f.space is Some && f.space->0 < f.cur.len() {
        f.space->0 as int
    } else {
        f.cur.len() as int
    };
    let head = f.cur.take(n);
    let tail = f.cur.skip(n);
    assert(head + tail =~= f.cur);
    glyphs::lemma_width_concat(head, tail);
    assert forall|i: int| 0 <= i < head.len() implies (#[trigger] head[i]).advance >= 0 by {
        assert(head[i] == f.cur[i]);
    }
    assert forall|i: int| 0 <= i < tail.len() implies (#[trigger] tail[i]).advance >= 0 by {
        assert(tail[i] == f.cur[n + i]);
    }
    assert(n == f.cur.len() ==> head =~= f.cur);
    let b = broken(f);
    assert(b.lines == f.lines.push(head));
    assert(b.cur =~= tail);
    if f.lines.len() > 0 {
        let m = choose|m: int| last_is_full(f, max, m);
        lemma_take_width(f.cur, m, n);
        assert(glyphs::width(f.lines.last()) + glyphs::width(head) > max);
    }
    lemma_forward_push(tail, p);
    let none = Seq::<PlacedView>::empty();
    lemma_forward_push(none, p);
    if over(b, p, max) {
        assert(g.lines == f.lines.push(head).push(tail));
        assert(g.cur =~= none.push(p));
        assert(glyphs::width(g.lines.last()) == glyphs::width(tail));
    } else {
        assert(g.lines == f.lines.push(head));
        assert(g.cur =~= tail.push(p));
    }
    assert(g.cur.take(g.cur.len() as int) =~= g.cur);
    assert(last_is_full(g, max, g.cur.len() as int));
    assert forall|i: int| 0 <= i < g.lines.len() - 1 implies glyphs::width(#[trigger] g.lines[i])
        + glyphs::width(g.lines[i + 1]) + first_advance(g.lines, g.cur, i + 2) > max by {
        let k = f.lines.len() as int;
        assert(first_advance(g.lines, g.cur, i + 2) >= 0) by {
            if i + 2 < g.lines.len() {
                assert(glyphs::line_forward(g.lines[i + 2]));
            }
        }
        if i + 1 < k {
            assert(g.lines[i] == f.lines[i]);
            assert(g.lines[i + 1] == f.lines[i + 1]);
            if i + 2 == k {
                assert(g.lines[i + 2] == head);
                assert(head[0] == f.cur[0]);
            } else {
                assert(g.lines[i + 2] == f.lines[i + 2]);
            }
        }
    }
}

proof fn lemma_next_all_full(
    f: Flow,
    t: Seq<char>,
    style: ResolvedStyle,
    font: VanillaFont,
    max: int,
    scale: int,
)
    requires
        0 <= scale,
        !t.contains('\n'),
        flow_full(f, max),
    ensures
        flow_full(next_all(f, t, style, font, max, scale), max),
    decreases t.len(),
{
    if t.len() > 0 {
        let before = t.drop_last();
        assert(!before.contains('\n')) by {
            if before.contains('\n') {
                let k = choose|k: int| 0 <= k < before.len() && before[k] == '\n';
                assert(t[k] == '\n');
            }
        }
        lemma_next_all_full(f, before, style, font, max, scale);
        assert(t.contains(t.last()));
        let g = next_all(f, before, style, font, max, scale);
        lemma_next_full(g, t.last(), style, font, max, scale);
    }
}

proof fn lemma_flow_full(spans: Seq<SpanView>, font: VanillaFont, max: int, scale: int)
    requires
        0 <= scale,
        forall|k: int| 0 <= k < spans.len() ==> !(#[trigger] spans[k]).text.contains('\n'),
    ensures
        flow_full(flow(spans, font, max, scale), max),
    decreases spans.len(),
{
    if spans.len() > 0 {
        let before = spans.drop_last();
        assert forall|k: int| 0 <= k < before.len() implies !(#[trigger] before[k]).text.contains(
            '\n',
        ) by {
            assert(before[k] == spans[k]);
        }
        lemma_flow_full(before, font, max, scale);
        assert(!spans[spans.len() - 1].text.contains('\n'));
        lemma_next_all_full(
            flow(before, font, max, scale),
            spans.last().text,
            spans.last().style,
            font,
            max,
            scale,
        );
    }
}

/// Lines break only for want of room: without line feeds, no line could have taken the next one and
/// the first character behind that.
pub proof fn lines_break_only_for_want_of_room(
    spans: Seq<SpanView>,
    font: VanillaFont,
    max: int,
    scale: int,
    i: int,
)
    requires
        0 <= scale,
        forall|k: int| 0 <= k < spans.len() ==> !(#[trigger] spans[k]).text.contains('\n'),
        0 <= i < finished(flow(spans, font, max, scale)).len() - 1,
    ensures
        ({
            let lines = finished(flow(spans, font, max, scale));
            let more = if i + 2 < lines.len() {
                lines[i + 2][0].advance
            } else {
                0
            };
            glyphs::width(lines[i]) + glyphs::width(lines[i + 1]) + more > max
        }),
{
    lemma_flow_full(spans, font, max, scale);
    let f = flow(spans, font, max, scale);
    let lines = finished(f);
    if i + 1 < f.lines.len() {
        assert(lines[i] == f.lines[i] && lines[i + 1] == f.lines[i + 1]);
        if i + 2 < f.lines.len() {
            assert(lines[i + 2] == f.lines[i + 2]);
        }
    } else {
        let m = choose|m: int| last_is_full(f, max, m);
        lemma_take_width(f.cur, m, f.cur.len() as int);
        assert(f.cur.take(f.cur.len() as int) =~= f.cur);
        assert(lines[i] == f.lines.last());
        assert(lines[i + 1] == f.cur);
    }
}

/// The width of several lines together.
pub open spec fn total_width(lines: Seq<Seq<PlacedView>>) -> int
    decreases lines.len(),
{
    if lines.len() == 0 {
        0
    } else {
        total_width(lines.drop_last()) + glyphs::width(lines.last())
    }
}

proof fn lemma_total_width(lines: Seq<Seq<PlacedView>>, n: int)
    requires
        0 <= n <= lines.len(),
        forall|i: int| 0 <= i < lines.len() ==> glyphs::line_forward(#[trigger] lines[i]),
    ensures
        total_width(lines.take(n)) <= total_width(lines),
    decreases lines.len(),
{
    if n < lines.len() {
        let before = lines.drop_last();
        assert forall|i: int| 0 <= i < before.len() implies glyphs::line_forward(
            #[trigger] before[i],
        ) by {
            assert(before[i] == lines[i]);
        }
        lemma_total_width(before, n);
        assert(before.take(n) =~= lines.take(n));
        assert(glyphs::line_forward(lines[lines.len() - 1]));
        glyphs::lemma_width_forward(lines.last());
    } else {
        assert(lines.take(n) =~= lines);
    }
}

/// Text that fits stays on one line: without line feeds, where all its characters together are no
/// wider than the limit, there is no second line.
pub proof fn text_that_fits_stays_on_one_line(
    spans: Seq<SpanView>,
    font: VanillaFont,
    max: int,
    scale: int,
)
    requires
        0 <= scale,
        forall|k: int| 0 <= k < spans.len() ==> !(#[trigger] spans[k]).text.contains('\n'),
        total_width(finished(flow(spans, font, max, scale))) <= max,
    ensures
        finished(flow(spans, font, max, scale)).len() <= 1,
{
    let f = flow(spans, font, max, scale);
    let lines = finished(f);
    if lines.len() >= 2 {
        lemma_flow_full(spans, font, max, scale);
        lines_break_only_for_want_of_room(spans, font, max, scale, 0);
        assert forall|i: int| 0 <= i < lines.len() implies glyphs::line_forward(
            #[trigger] lines[i],
        ) by {
            if i < f.lines.len() {
                assert(lines[i] == f.lines[i]);
            }
        }
        lemma_total_width(lines, 2);
        let two = lines.take(2);
        let one = two.drop_last();
        assert(one.drop_last() =~= Seq::empty());
        assert(total_width(one.drop_last()) == 0);
        assert(total_width(one) == glyphs::width(one.last()));
        assert(two.len() == 2 && one.len() == 1);
        assert(one.last() == lines[0] && two.last() == lines[1]);
        assert(total_width(two) == glyphs::width(lines[0]) + glyphs::width(lines[1]));
        if lines.len() >= 3 {
            lemma_total_width(lines, 3);
            let three = lines.take(3);
            assert(three.drop_last() =~= two);
            assert(three.last() == lines[2]);
            assert(lines[2].len() > 0);
            lemma_take_width(lines[2], 1, lines[2].len() as int);
            assert(lines[2].take(lines[2].len() as int) =~= lines[2]);
            let first = lines[2].take(1);
            assert(first.drop_last() =~= Seq::empty());
            assert(glyphs::width(first.drop_last()) == 0);
            assert(first.last() == lines[2][0]);
        }
    }
}

/// A line feed always ends the line, also an empty one, and is not shown itself.
pub proof fn line_feeds_break(
    f: Flow,
    style: ResolvedStyle,
    font: VanillaFont,
    max: int,
    scale: int,
)
    ensures
        next(f, '\n', style, font, max, scale).lines == f.lines.push(f.cur),
        next(f, '\n', style, font, max, scale).cur.len() == 0,
{
}

/// The lines that are seen are the first of the broken lines, as many as allowed but at least one;
/// without right-to-left characters they are seen as they are.
pub proof fn first_lines_are_seen(
    spans: Seq<SpanView>,
    font: VanillaFont,
    max_width: int,
    max_lines: int,
    scale: int,
    i: int,
)
    ensures
        ({
            let lines = finished(flow(spans, font, limit(max_width, scale), scale));
            let seen = laid_out(spans, font, max_width, max_lines, scale);
            let most = if max_lines > 1 {
                max_lines
            } else {
                1
            };
            &&& lines.len() <= most ==> seen.len() == lines.len()
            &&& lines.len() > most ==> seen.len() == most
            &&& 0 <= i < seen.len() && (forall|k: int|
                0 <= k < lines[i].len() ==> !bidi::is_rtl((#[trigger] lines[i][k]).ch))
                ==> seen[i] == lines[i]
            &&& max_width * scale <= u32::MAX ==> limit(max_width, scale) == max_width * scale
        }),
{
    let lines = finished(flow(spans, font, limit(max_width, scale), scale));
    let seen = laid_out(spans, font, max_width, max_lines, scale);
    if 0 <= i < seen.len() {
        assert(seen[i] == bidi::reordered(font, lines[i], scale));
    }
}

/// A character is as wide as its glyph, enlarged; a bold one is wider by a pixel of the glyph.
pub proof fn characters_have_their_width(
    font: VanillaFont,
    ch: char,
    style: ResolvedStyle,
    scale: int,
)
    requires
        scale > 0,
    ensures
        ({
            let p = glyphs::placed(font, ch, style, scale);
            &&& p.ch == ch && p.style == style
            &&& font.lookup(ch) matches Some(g) ==> p.glyph == g && p.advance == g.advance * scale
                + (if !style.bold {
                0
            } else if !g.unifont {
                scale
            } else if scale / 2 > 1 {
                scale / 2
            } else {
                1
            })
            &&& font.lookup(ch) is None ==> p.advance == 7 * scale + (if style.bold {
                scale
            } else {
                0
            })
        }),
{
}

} // verus!
