//! The card of one server: icon, title, description, two lines about the server, and a box with
//! some of its players.

use vstd::prelude::*;
use crate::minecraft::component;
use crate::minecraft::component::{Component, Span, SpanView};
use crate::minecraft::font::VanillaFont;
use crate::minecraft::protocol::{PingResult, ResultView};
use crate::minecraft::render::canvas;
use crate::minecraft::render::canvas::{blit_sprite, composite_over_checker, Canvas, Picture, Rgba};
use crate::minecraft::render::draw;
use crate::minecraft::render::draw::{draw_block_dev, draw_right_dev, Ctx, Look, LINE_HEIGHT};
use crate::minecraft::render::gui;
use crate::minecraft::render::gui::{draw_icon, load_icon, ping_sprite, Assets, AssetsView};
use crate::minecraft::render::info;
use crate::minecraft::render::info::{
    info_line1, info_line2, line_spans, player_count_spans, title_text,
};
use crate::minecraft::render::layout;
use crate::minecraft::render::layout::{is_short, measure_dev, MAX_CHARS};
use crate::minecraft::render::motd;
use crate::minecraft::render::motd::{encode_png, new_canvas};
use crate::minecraft::render::options::{
    CardOptions, OldColorPolicy, RenderOptions, TargetVersion, MAX_SCALE, MOTD_WIDTH,
};
use crate::minecraft::render::single;
use crate::minecraft::render::single::{between, interpolate, round, single, UNIT};
use crate::minecraft::status;
use crate::minecraft::status::StatusView;
use crate::minecraft::text;

verus! {

/// The space inside a card.
pub const ENTRY_PAD: u32 = 4;

/// The space inside the box with players.
pub const TT_PAD: u32 = 3;

/// The height of what a card shows: a title and four lines.
pub const INNER: u32 = 48;

/// Where the text of a card starts.
pub const TEXT_X: u32 = 56;

/// Where the description of a card ends.
pub const MOTD_RIGHT: u32 = 323;

/// Where the box with players starts.
pub const BOX_X: u32 = 329;

/// The greatest width of a card.
pub const MAX_CARD_WIDTH: u32 = 539;

/// The most players that the box shows.
pub const MAX_SAMPLE: usize = 5;

/// The look of text on cards and screens.
pub open spec fn text_options(
    scale: u32,
    fg: (u8, u8, u8),
    target: TargetVersion,
    policy: OldColorPolicy,
) -> RenderOptions {
    RenderOptions {
        scale,
        max_width: MOTD_WIDTH,
        max_lines: 2,
        padding: 0,
        default_color: fg,
        background: None,
        shadow: true,
        target,
        old_color_policy: policy,
        obfuscate_seed: 0,
    }
}

/// The look of text on cards and screens.
pub fn text_look(
    scale: u32,
    fg: (u8, u8, u8),
    target: TargetVersion,
    policy: OldColorPolicy,
) -> (r: RenderOptions)
    ensures
        r == text_options(scale, fg, target, policy),
{
    RenderOptions {
        scale,
        max_width: MOTD_WIDTH,
        max_lines: 2,
        padding: 0,
        default_color: fg,
        background: None,
        shadow: true,
        target,
        old_color_policy: policy,
        obfuscate_seed: 0,
    }
}

// ---- measures ----

/// The players that the box shows, as lines.
pub open spec fn sample_lines(s: StatusView) -> Seq<Seq<SpanView>> {
    match s.players {
        Some(p) => {
            let n = if p.sample.len() < MAX_SAMPLE {
                p.sample.len()
            } else {
                MAX_SAMPLE as nat
            };
            Seq::new(n, |i: int| component::spans_of(component::text_view(p.sample[i].0)))
        },
        None => Seq::empty(),
    }
}

/// How many GUI pixels a line takes.
pub open spec fn gui_width(line: Seq<SpanView>, font: VanillaFont, scale: int) -> int {
    (layout::measured(line, font, scale) + scale - 1) / scale
}

/// The greatest width of several lines, in GUI pixels.
pub open spec fn widest(lines: Seq<Seq<SpanView>>, font: VanillaFont, scale: int) -> int
    decreases lines.len(),
{
    if lines.len() == 0 {
        0
    } else {
        canvas::at_least(
            widest(lines.drop_last(), font, scale),
            gui_width(lines.last(), font, scale),
        )
    }
}

/// The width of what the box shows: that of its widest line, from 8 to 200.
pub open spec fn content_width(lines: Seq<Seq<SpanView>>, font: VanillaFont, scale: int) -> int {
    let w = widest(lines, font, scale);
    if w < 8 {
        8
    } else if w > 200 {
        200
    } else {
        w
    }
}

/// The height of the box for `n` lines.
pub open spec fn box_height(n: int) -> int {
    let h = n * LINE_HEIGHT + 2 * TT_PAD;
    if h < INNER {
        h
    } else {
        INNER as int
    }
}

/// The width of a card.
pub open spec fn card_width(s: StatusView, font: VanillaFont, scale: int) -> int {
    let lines = sample_lines(s);
    if lines.len() > 0 {
        BOX_X + content_width(lines, font, scale) + 2 * TT_PAD + ENTRY_PAD
    } else {
        MOTD_RIGHT + ENTRY_PAD
    }
}

/// The height of a card.
pub open spec fn card_height() -> int {
    INNER + 2 * ENTRY_PAD
}

/// A line of text can be drawn.
pub open spec fn line_ok(line: Seq<SpanView>) -> bool {
    component::spans_ok(line) && layout::char_count(line) <= MAX_CHARS
}

/// Every text of a card can be drawn.
pub open spec fn texts_ok(r: ResultView, title: Option<Seq<char>>) -> bool {
    &&& info::title_of(r, title).len() <= MAX_CHARS
    &&& component::colors_ok(r.status.description)
    &&& layout::char_count(component::spans_of(r.status.description)) <= MAX_CHARS
    &&& layout::char_count(info::first_line(r)) <= MAX_CHARS
    &&& layout::char_count(info::second_line(r.status)) <= MAX_CHARS
    &&& layout::char_count(info::player_count(r.status)) <= MAX_CHARS
    &&& forall|i: int|
        0 <= i < sample_lines(r.status).len() ==> layout::char_count(
            #[trigger] sample_lines(r.status)[i],
        ) <= MAX_CHARS
}

/// What a card shows, and where.
pub struct EntryLayout {
    pub full_w: u32,
    pub height: u32,
    pub title: String,
    pub motd: Vec<Span>,
    pub line4: Vec<Span>,
    pub line5: Vec<Span>,
    pub count: Vec<Span>,
    pub sample: Vec<Vec<Span>>,
    pub content_w: u32,
}

/// The spans of several lines.
pub open spec fn lines_view(lines: Seq<Vec<Span>>) -> Seq<Seq<SpanView>> {
    Seq::new(lines.len(), |i: int| component::span_views(lines[i]@))
}

/// Every line can be drawn.
pub open spec fn all_lines_ok(lines: Seq<Seq<SpanView>>) -> bool {
    forall|i: int| 0 <= i < lines.len() ==> line_ok(#[trigger] lines[i])
}

impl EntryLayout {
    /// The layout is that of the server.
    pub open spec fn is_of(
        self,
        r: ResultView,
        title: Option<Seq<char>>,
        font: VanillaFont,
        scale: int,
    ) -> bool {
        &&& self.full_w == card_width(r.status, font, scale)
        &&& self.height == card_height()
        &&& self.title@ == info::title_of(r, title)
        &&& component::span_views(self.motd@) == component::spans_of(r.status.description)
        &&& component::span_views(self.line4@) == info::first_line(r)
        &&& component::span_views(self.line5@) == info::second_line(r.status)
        &&& component::span_views(self.count@) == info::player_count(r.status)
        &&& lines_view(self.sample@) == sample_lines(r.status)
        &&& self.sample@.len() <= MAX_SAMPLE
        &&& self.content_w == content_width(sample_lines(r.status), font, scale)
    }
}

/// Plain lines can be drawn where they are not too long.
proof fn lemma_info_ok(r: ResultView)
    ensures
        component::spans_ok(info::first_line(r)),
        component::spans_ok(info::second_line(r.status)),
        component::spans_ok(info::player_count(r.status)),
{
    info::lemma_plain_line(text::joined(info::first_parts(r), "  ·  "@));
    info::lemma_plain_line(text::joined(info::second_parts(r.status), "  ·  "@));
    if let Some(p) = r.status.players {
        info::lemma_plain_line(
            text::signed_decimal(p.online as int) + "/"@ + text::signed_decimal(p.max as int),
        );
    }
}

/// The lines of the players that the box shows.
fn sample_spans(r: &PingResult) -> (v: Vec<Vec<Span>>)
    ensures
        lines_view(v@) == sample_lines(r.model().status),
        v@.len() <= MAX_SAMPLE,
        forall|i: int|
            0 <= i < lines_view(v@).len() ==> component::spans_ok(#[trigger] lines_view(v@)[i]),
{
    let mut out: Vec<Vec<Span>> = Vec::new();
    let ghost goal = sample_lines(r.model().status);
    assert(lines_view(out@) =~= Seq::empty());
    if let Some(p) = &r.status.players {
        let n: usize = if p.sample.len() < MAX_SAMPLE {
            p.sample.len()
        } else {
            MAX_SAMPLE
        };
        assert(status::player_views(p.sample@).len() == p.sample@.len());
        for i in 0..n
            invariant
                n <= p.sample@.len(),
                n == goal.len(),
                goal == Seq::new(
                    n as nat,
                    |i: int|
                        component::spans_of(
                            component::text_view(status::player_views(p.sample@)[i].0),
                        ),
                ),
                lines_view(out@) =~= goal.take(i as int),
                forall|k: int|
                    0 <= k < lines_view(out@).len() ==> component::spans_ok(
                        #[trigger] lines_view(out@)[k],
                    ),
        {
            let c = Component::text(p.sample[i].name.as_str());
            let ghost before = lines_view(out@);
            proof {
                assert(component::colors_ok(component::text_view(p.sample@[i as int].name@)));
            }
            let line = c.to_spans();
            out.push(line);
            proof {
                let after = lines_view(out@);
                assert(after =~= before.push(goal[i as int]));
                assert forall|k: int| 0 <= k < after.len() implies component::spans_ok(
                    #[trigger] after[k],
                ) by {
                    if k < before.len() {
                        assert(after[k] == before[k]);
                    }
                }
            }
        }
        assert(goal.take(n as int) =~= goal);
    }
    out
}

/// The width of what the box shows.
fn measure_content(font: &VanillaFont, lines: &Vec<Vec<Span>>, scale: u32) -> (r: u32)
    requires
        font.wf(),
        0 < scale <= MAX_SCALE,
        all_lines_ok(lines_view(lines@)),
    ensures
        r == content_width(lines_view(lines@), *font, scale as int),
        8 <= r <= 200,
{
    let ghost all = lines_view(lines@);
    let mut best: u64 = 0;
    assert(all.take(0) =~= Seq::empty());
    for i in 0..lines.len()
        invariant
            all == lines_view(lines@),
            all_lines_ok(all),
            font.wf(),
            0 < scale <= MAX_SCALE,
            best == widest(all.take(i as int), *font, scale as int),
    {
        assert(all.take(i + 1).drop_last() =~= all.take(i as int));
        assert(all.take(i + 1).last() == component::span_views(lines@[i as int]@));
        assert(line_ok(all[i as int]));
        let m: u64 = measure_dev(font, lines[i].as_slice(), scale);
        let w: u64 = (m + scale as u64 - 1) / scale as u64;
        if w > best {
            best = w;
        }
    }
    assert(all.take(all.len() as int) =~= all);
    if best < 8 {
        8
    } else if best > 200 {
        200
    } else {
        best as u32
    }
}

/// Measures a card.
pub fn entry_layout(font: &VanillaFont, r: &PingResult, title: &Option<String>, scale: u32) -> (lay:
    EntryLayout)
    requires
        font.wf(),
        0 < scale <= MAX_SCALE,
        texts_ok(r.model(), text::opt_view(*title)),
    ensures
        lay.is_of(r.model(), text::opt_view(*title), *font, scale as int),
        lay.full_w <= MAX_CARD_WIDTH,
{
    let sample = sample_spans(r);
    proof {
        let v = lines_view(sample@);
        assert(v.len() == sample@.len());
        assert forall|i: int| 0 <= i < v.len() implies line_ok(#[trigger] v[i]) by {
            assert(component::spans_ok(v[i]));
            assert(layout::char_count(sample_lines(r.model().status)[i]) <= MAX_CHARS);
        }
    }
    let content_w: u32 = measure_content(font, &sample, scale);
    let full_w: u32 = if sample.len() > 0 {
        BOX_X + content_w + 2 * TT_PAD + ENTRY_PAD
    } else {
        MOTD_RIGHT + ENTRY_PAD
    };
    EntryLayout {
        full_w,
        height: INNER + 2 * ENTRY_PAD,
        title: title_text(r, title),
        motd: r.status.description.to_spans(),
        line4: info_line1(r),
        line5: info_line2(r),
        count: player_count_spans(r),
        sample,
        content_w,
    }
}

// ---- the box ----

/// Which part of the box's height lies above a row.
pub open spec fn way_down(dy: int, h: int) -> int {
    single(single(dy, 1) * UNIT, single(canvas::at_least(h, 1), 1) as nat)
}

/// The value that goes evenly from `a` at the top of the box to `b` at its bottom, without its
/// fraction. It is computed with single-precision numbers.
pub open spec fn shade(a: int, b: int, dy: int, h: int) -> int {
    between(a * UNIT, b * UNIT, way_down(dy, h)) / (UNIT as int)
}

/// The colour of the box's side at a distance from its top.
pub open spec fn side_color(dy: int, h: int) -> Rgba {
    canvas::solid(shade(38, 24, dy, h) as u8, 0, shade(95, 52, dy, h) as u8)
}

/// A picture with the two sides of the box.
pub open spec fn with_sides(p: Picture, x: int, y: int, w: int, h: int, t: int) -> Picture {
    p.plotted(
        |a: int, b: int, old: Rgba|
            if y <= b < y + h && (x <= a < x + t || x + w - t <= a < x + w) {
                side_color(b - y, h)
            } else {
                old
            },
    )
}

/// A picture with the box: a dark ground, and an edge as thick as a GUI pixel that gets darker
/// downwards.
pub open spec fn with_box(p: Picture, x: int, y: int, w: int, h: int, scale: int) -> Picture {
    let t = canvas::at_least(scale, 1);
    with_sides(
        p.filled(x, y, w, h, canvas::solid(16, 0, 16)).filled(
            x,
            y,
            w,
            t,
            canvas::solid(38, 0, 95),
        ).filled(x, y + h - t, w, t, canvas::solid(24, 0, 52)),
        x,
        y,
        w,
        h,
        t,
    )
}

/// The greatest height of the box, in pixels.
pub const MAX_BOX: u32 = 0x1000_0000;

proof fn lemma_way_down(dy: int, h: int)
    requires
        0 <= dy < h <= MAX_BOX,
    ensures
        0 <= single(dy, 1) <= 2 * MAX_BOX,
        0 < single(h, 1) <= 2 * MAX_BOX,
        0 <= way_down(dy, h) <= 2 * UNIT,
{
    let a = single(dy, 1);
    let b = single(h, 1);
    if h < 0x80_0000 {
        single::short_numbers_are_kept(dy);
        single::short_numbers_are_kept(h);
    } else {
        single::rounding_is_small(dy, 1, h as nat);
        single::rounding_is_small(h, 1, h as nat);
    }
    assert(2 * a <= 3 * b);
    let n = a * UNIT;
    assert(0 <= n && 2 * n <= 3 * UNIT * b) by (nonlinear_arith)
        requires
            0 <= a,
            2 * a <= 3 * b,
            n == a * UNIT,
            UNIT > 0,
    ;
    assert(b * (2 * UNIT) == 2 * UNIT * b) by (nonlinear_arith);
    assert(0 <= n <= b * (2 * UNIT)) by (nonlinear_arith)
        requires
            0 <= n,
            2 * n <= 3 * UNIT * b,
            0 < b,
            UNIT > 0,
    ;
    single::rounding_is_small(n, b as nat, (2 * UNIT) as nat);
    let t = way_down(dy, h);
    assert(0x100_0000 * (t * b - n) <= 2 * UNIT * b);
    assert(t <= 2 * UNIT) by (nonlinear_arith)
        requires
            0x100_0000 * (t * b - n) <= 2 * UNIT * b,
            2 * n <= 3 * UNIT * b,
            0 < b,
            UNIT == 0x10_0000_0000_0000,
    ;
}

proof fn lemma_shade(a: int, b: int, t: int)
    requires
        0 <= b <= a <= 127,
        2 * (a - b) < a,
        0 <= t <= 2 * UNIT,
    ensures
        0 <= between(a * UNIT, b * UNIT, t) < (a + 1) * UNIT,
{
    let n = b * UNIT - a * UNIT;
    single::rounding_is_small(n, 1, (128 * UNIT) as nat);
    let d = single(n, 1);
    single::rounding_keeps_the_sign(n, 1);
    assert(n - 0x8_0000_0000 <= d <= 0);
    assert(2 * (n - 0x8_0000_0000) * UNIT <= d * t <= 0) by (nonlinear_arith)
        requires
            n - 0x8_0000_0000 <= d <= 0,
            0 <= t <= 2 * UNIT,
            UNIT > 0,
    ;
    single::rounding_is_small(d * t, UNIT as nat, (512 * UNIT) as nat);
    let e = single(d * t, UNIT as nat);
    single::rounding_keeps_the_sign(d * t, UNIT as nat);
    assert(2 * n - 0x100_0000_0000 <= e <= 0);
    single::rounding_is_small(a * UNIT + e, 1, (128 * UNIT) as nat);
}

/// The value of the box's side at a distance from its top.
fn shade_at(a: i128, b: i128, t: i128) -> (r: u8)
    requires
        0 <= b <= a <= 127,
        2 * (a - b) < a,
        0 <= t <= 2 * UNIT,
    ensures
        r == between(a * UNIT, b * UNIT, t as int) / (UNIT as int),
{
    proof {
        lemma_shade(a as int, b as int, t as int);
    }
    let v = interpolate(a * UNIT, b * UNIT, t);
    (v / UNIT) as u8
}

/// Draws the box.
pub fn draw_tooltip(img: &mut Canvas, x: i64, y: i64, w: u32, h: u32, scale: u32)
    requires
        old(img).wf(),
        scale <= MAX_SCALE,
        h <= MAX_BOX,
        -0x1000_0000_0000_0000 <= x <= 0x1000_0000_0000_0000,
        -0x1000_0000_0000_0000 <= y <= 0x1000_0000_0000_0000,
    ensures
        final(img).wf(),
        final(img)@ == with_box(
            old(img)@,
            x as int,
            y as int,
            w as int,
            h as int,
            scale as int,
        ),
{
    let t: u32 = if scale > 1 {
        scale
    } else {
        1
    };
    img.fill(x, y, w, h, Rgba { r: 16, g: 0, b: 16, a: 255 });
    img.fill(x, y, w, t, Rgba { r: 38, g: 0, b: 95, a: 255 });
    img.fill(x, y + h as i64 - t as i64, w, t, Rgba { r: 24, g: 0, b: 52, a: 255 });
    let ghost ground = img@;
    let ghost goal = with_sides(ground, x as int, y as int, w as int, h as int, t as int);
    let right: i64 = x + w as i64 - t as i64;
    let mut dy: u32 = 0;
    while dy < h
        invariant
            dy <= h <= MAX_BOX,
            1 <= t <= MAX_SCALE,
            -0x1000_0000_0000_0000 <= x <= 0x1000_0000_0000_0000,
            -0x1000_0000_0000_0000 <= y <= 0x1000_0000_0000_0000,
            right == x + w - t,
            goal == with_sides(ground, x as int, y as int, w as int, h as int, t as int),
            img.wf(),
            img@.w == ground.w,
            img@.h == ground.h,
            forall|a: int, b: int| #[trigger]
                img@.px(a, b) == (if b < y + dy {
                    goal.px(a, b)
                } else {
                    ground.px(a, b)
                }),
        decreases h - dy,
    {
        proof {
            lemma_way_down(dy as int, h as int);
        }
        let part = round(round(dy as i128, 1) * UNIT, round(h as i128, 1) as u128);
        let c = Rgba { r: shade_at(38, 24, part), g: 0, b: shade_at(95, 52, part), a: 255 };
        img.fill(x, y + dy as i64, t, 1, c);
        img.fill(right, y + dy as i64, t, 1, c);
        dy += 1;
    }
    proof {
        canvas::lemma_same(img@, goal);
    }
}

// ---- the card ----

/// The colour of text in a look.
pub open spec fn in_color(look: Look, r: u8, g: u8, b: u8) -> Look {
    Look { fg: (r, g, b), ..look }
}

/// A picture with the lines of the box.
pub open spec fn with_sample(
    p: Picture,
    look: Look,
    x: int,
    top: int,
    lines: Seq<Seq<SpanView>>,
    n: nat,
    width: int,
) -> Picture
    decreases n,
{
    if n == 0 {
        p
    } else {
        draw::with_block(
            with_sample(p, look, x, top, lines, (n - 1) as nat, width),
            look,
            x,
            top + (n - 1) * (LINE_HEIGHT * look.opts.scale),
            lines[n - 1],
            width,
            1,
        )
    }
}

/// How wide the title may be, in GUI pixels: up to the count of the players, but at least eight.
pub open spec fn title_width(count_right: int, count_width: int, text_left: int, scale: int) -> int {
    canvas::at_least(count_right - count_width - text_left - 4 * scale, 8 * scale) / scale
}

/// A picture with a card at the GUI pixel (`ox`, `oy`).
pub open spec fn with_card(
    p: Picture,
    look: Look,
    assets: AssetsView,
    ox: int,
    oy: int,
    r: ResultView,
    title: Option<Seq<char>>,
) -> Picture {
    let s = look.opts.scale as int;
    let gray = in_color(look, 128, 128, 128);
    let white = in_color(look, 255, 255, 255);
    let left = (ox + TEXT_X) * s;
    let top = (oy + ENTRY_PAD) * s;
    let count = info::player_count(r.status);
    let count_right = (ox + MOTD_RIGHT - 20) * s;
    let icon = gui::with_icon(
        p,
        gui::icon_of(r.status),
        (ox + ENTRY_PAD) * s,
        top,
        INNER * s,
    );
    let bars = icon.stamped(
        gui::sprite_for(assets, r.latency),
        (ox + MOTD_RIGHT - 15) * s,
        top,
        s,
    );
    let counted = draw::with_right(bars, gray, count_right, top + s, count);
    let titled = draw::with_block(
        counted,
        white,
        left,
        top + s,
        info::plain_line(info::title_of(r, title)),
        title_width(count_right, layout::measured(count, look.font, s), left, s),
        1,
    );
    let described = draw::with_block(
        titled,
        gray,
        left,
        top + 12 * s,
        component::spans_of(r.status.description),
        MOTD_WIDTH as int,
        2,
    );
    let first = draw::with_block(
        described,
        in_color(look, 120, 130, 140),
        left,
        top + (12 + 2 * LINE_HEIGHT) * s,
        info::first_line(r),
        MOTD_WIDTH as int,
        1,
    );
    let second = if info::second_line(r.status).len() > 0 {
        draw::with_block(
            first,
            in_color(look, 110, 120, 135),
            left,
            top + (12 + 3 * LINE_HEIGHT) * s,
            info::second_line(r.status),
            MOTD_WIDTH as int,
            1,
        )
    } else {
        first
    };
    let lines = sample_lines(r.status);
    if lines.len() > 0 {
        let w = content_width(lines, look.font, s);
        with_sample(
            with_box(
                second,
                (ox + BOX_X) * s,
                top,
                (w + 2 * TT_PAD) * s,
                box_height(lines.len() as int) * s,
                s,
            ),
            white,
            (ox + BOX_X + TT_PAD) * s,
            top + TT_PAD * s,
            lines,
            lines.len(),
            w,
        )
    } else {
        second
    }
}

proof fn lemma_scaled(g: int, scale: int)
    requires
        0 <= g <= 2000,
        0 <= scale <= 0x10_0000,
    ensures
        0 <= g * scale <= 0x7FFF_FFFF,
{
    assert(0 <= g * scale <= 2000 * 0x10_0000) by (nonlinear_arith)
        requires
            0 <= g <= 2000,
            0 <= scale <= 0x10_0000,
    ;
}

/// A number of GUI pixels in pixels.
pub fn scaled(g: u32, scale: u32) -> (r: u32)
    requires
        g <= 2000,
        scale <= MAX_SCALE,
    ensures
        r == g * scale,
        r <= 0x7FFF_FFFF,
{
    proof {
        lemma_scaled(g as int, scale as int);
    }
    g * scale
}

/// Draws the lines of the box.
fn draw_sample(img: &mut Canvas, ctx: &Ctx, x: i64, top: i64, lines: &Vec<Vec<Span>>, width: u32)
    requires
        old(img).wf(),
        ctx.wf(),
        all_lines_ok(lines_view(lines@)),
        lines@.len() <= MAX_SAMPLE,
        0 <= x <= 0x7FFF_FFFF,
        0 <= top <= 0x7FFF_FFFF_FFFF,
    ensures
        final(img).wf(),
        final(img)@.w == old(img)@.w,
        final(img)@.h == old(img)@.h,
        final(img)@ == with_sample(
            old(img)@,
            ctx.look(),
            x as int,
            top as int,
            lines_view(lines@),
            lines@.len(),
            width as int,
        ),
{
    let ghost all = lines_view(lines@);
    let ghost before = img@;
    let step: i64 = LINE_HEIGHT as i64 * ctx.opts.scale as i64;
    for i in 0..lines.len()
        invariant
            all == lines_view(lines@),
            all_lines_ok(all),
            lines@.len() <= MAX_SAMPLE,
            ctx.wf(),
            step == LINE_HEIGHT * ctx.opts.scale,
            0 <= x <= 0x7FFF_FFFF,
            0 <= top <= 0x7FFF_FFFF_FFFF,
            img.wf(),
            img@.w == before.w,
            img@.h == before.h,
            img@ == with_sample(
                before,
                ctx.look(),
                x as int,
                top as int,
                all,
                i as nat,
                width as int,
            ),
    {
        proof {
            assert(line_ok(all[i as int]));
            assert(0 <= i * step <= 5 * (9 * 0x10_0000)) by (nonlinear_arith)
                requires
                    0 <= i <= 5,
                    0 <= step <= 9 * 0x10_0000,
            ;
        }
        draw_block_dev(img, ctx, x, top + i as i64 * step, lines[i].as_slice(), width, 1);
    }
}

/// How wide the title may be, in GUI pixels.
pub fn title_room(count_right: i64, count_width: u64, text_left: i64, scale: u32) -> (r: u32)
    requires
        0 < scale <= MAX_SCALE,
        0 <= count_right <= 0x7FFF_FFFF_FFFF,
        0 <= text_left <= 0x7FFF_FFFF_FFFF,
        count_width <= layout::MAX_WIDTH,
        count_right - text_left <= 2000 * scale,
    ensures
        r == title_width(count_right as int, count_width as int, text_left as int, scale as int),
{
    let room: i64 = count_right - count_width as i64 - text_left - 4 * scale as i64;
    let least: i64 = 8 * scale as i64;
    let best: i64 = if room > least {
        room
    } else {
        least
    };
    assert(best / (scale as i64) <= 2000) by (nonlinear_arith)
        requires
            0 <= best <= 2000 * scale,
            0 < scale,
    ;
    (best / scale as i64) as u32
}

/// Draws a card at the GUI pixel (`ox`, `oy`).
fn draw_entry(
    img: &mut Canvas,
    ctx: &Ctx,
    assets: &Assets,
    ox: u32,
    oy: u32,
    lay: &EntryLayout,
    r: &PingResult,
    Ghost(title): Ghost<Option<Seq<char>>>,
)
    requires
        old(img).wf(),
        ctx.wf(),
        0 < ctx.opts.scale,
        assets.wf(),
        *ctx.font == assets.font,
        ox <= 1000,
        oy <= 1000,
        texts_ok(r.model(), title),
        lay.is_of(r.model(), title, *ctx.font, ctx.opts.scale as int),
    ensures
        final(img).wf(),
        final(img)@.w == old(img)@.w,
        final(img)@.h == old(img)@.h,
        final(img)@ == with_card(
            old(img)@,
            ctx.look(),
            assets.model(),
            ox as int,
            oy as int,
            r.model(),
            title,
        ),
{
    let s: u32 = ctx.opts.scale;
    let ghost view = r.model();
    proof {
        lemma_info_ok(view);
        info::lemma_plain_line(lay.title@);
        component::spans_keep_known_colors(view.status.description);
    }
    let gray = Ctx { font: ctx.font, opts: ctx.opts, fg: (128, 128, 128) };
    let white = Ctx { font: ctx.font, opts: ctx.opts, fg: (255, 255, 255) };
    let left: i64 = scaled(ox + TEXT_X, s) as i64;
    let top: u32 = scaled(oy + ENTRY_PAD, s);
    let y: i64 = top as i64;
    let si: i64 = s as i64;
    let icon = load_icon(&r.status);
    draw_icon(img, &icon, scaled(ox + ENTRY_PAD, s), top, scaled(INNER, s));
    let sprite = ping_sprite(assets, r.latency);
    blit_sprite(img, sprite, scaled(ox + MOTD_RIGHT - 15, s) as i64, y, s);
    let count_w: u64 = measure_dev(ctx.font, lay.count.as_slice(), s);
    let count_right: i64 = scaled(ox + MOTD_RIGHT - 20, s) as i64;
    draw_right_dev(img, &gray, count_right, y + si, lay.count.as_slice());
    proof {
        let g = ox + MOTD_RIGHT - 20;
        let k = ox + TEXT_X;
        assert(g * s - k * s <= 2000 * s) by (nonlinear_arith)
            requires
                g - k <= 2000,
                0 < s,
        ;
    }
    let title_max: u32 = title_room(count_right, count_w, left, s);
    let title_spans = line_spans(lay.title.as_str());
    draw_block_dev(img, &white, left, y + si, title_spans.as_slice(), title_max, 1);
    draw_block_dev(img, &gray, left, y + 12 * si, lay.motd.as_slice(), MOTD_WIDTH, 2);
    let c4 = Ctx { font: ctx.font, opts: ctx.opts, fg: (120, 130, 140) };
    draw_block_dev(img, &c4, left, y + 30 * si, lay.line4.as_slice(), MOTD_WIDTH, 1);
    assert(component::span_views(lay.line5@).len() == lay.line5@.len());
    if lay.line5.len() > 0 {
        let c5 = Ctx { font: ctx.font, opts: ctx.opts, fg: (110, 120, 135) };
        draw_block_dev(img, &c5, left, y + 39 * si, lay.line5.as_slice(), MOTD_WIDTH, 1);
    }
    assert(lines_view(lay.sample@).len() == lay.sample@.len());
    if lay.sample.len() > 0 {
        let w: u32 = lay.content_w;
        let n: u32 = lay.sample.len() as u32;
        let h: u32 = if n * LINE_HEIGHT + 2 * TT_PAD < INNER {
            n * LINE_HEIGHT + 2 * TT_PAD
        } else {
            INNER
        };
        let box_h: u32 = scaled(h, s);
        assert(box_h <= 48 * s) by (nonlinear_arith)
            requires
                box_h == h * s,
                h <= 48,
        ;
        draw_tooltip(
            img,
            scaled(ox + BOX_X, s) as i64,
            y,
            scaled(w + 2 * TT_PAD, s),
            box_h,
            s,
        );
        proof {
            let v = lines_view(lay.sample@);
            assert forall|i: int| 0 <= i < v.len() implies line_ok(#[trigger] v[i]) by {
                assert(layout::char_count(sample_lines(view.status)[i]) <= MAX_CHARS);
                lemma_sample_ok(view.status, i);
            }
        }
        draw_sample(
            img,
            &white,
            scaled(ox + BOX_X + TT_PAD, s) as i64,
            y + TT_PAD as i64 * si,
            &lay.sample,
            w,
        );
    }
}

proof fn lemma_sample_ok(s: StatusView, i: int)
    requires
        0 <= i < sample_lines(s).len(),
    ensures
        component::spans_ok(sample_lines(s)[i]),
{
    let name = s.players->0.sample[i].0;
    assert(component::colors_ok(component::text_view(name)));
    component::spans_keep_known_colors(component::text_view(name));
}

/// The side of a checkerboard's cell at an enlargement.
pub open spec fn checker_cell(scale: int) -> int {
    canvas::at_least(2 * scale, 4)
}

/// The picture of a server's card.
pub open spec fn card_picture(
    r: ResultView,
    assets: AssetsView,
    scale: u32,
    target: TargetVersion,
    policy: OldColorPolicy,
    background: Rgba,
    title: Option<Seq<char>>,
    checker: bool,
) -> Picture {
    let card = with_card(
        motd::ground(
            card_width(r.status, assets.font, scale as int) * scale,
            card_height() * scale,
            Some(background),
        ),
        Look {
            font: assets.font,
            opts: text_options(scale, (128, 128, 128), target, policy),
            fg: (128, 128, 128),
        },
        assets,
        0,
        0,
        r,
        title,
    );
    if checker {
        canvas::over_checker(card, checker_cell(scale as int))
    } else {
        card
    }
}

/// The card of a server can be drawn, as wide as a card can be.
pub open spec fn card_fits(r: ResultView, scale: int, title: Option<Seq<char>>) -> bool {
    &&& 0 < scale <= MAX_SCALE
    &&& texts_ok(r, title)
    &&& canvas::fits(MAX_CARD_WIDTH * scale, card_height() * scale)
}

/// Whether the card of a server can be drawn.
pub fn card_can_be_drawn(result: &PingResult, scale: u32, title: &Option<String>) -> (r: bool)
    ensures
        r == card_fits(result.model(), scale as int, text::opt_view(*title)),
{
    if scale == 0 || scale > MAX_SCALE || !result.status.description.colors_are_known() {
        return false;
    }
    if !canvas::is_holdable(MAX_CARD_WIDTH as u64 * scale as u64, 56 * scale as u64) {
        return false;
    }
    let t = title_text(result, title);
    let v = text::chars_of(t.as_str());
    if v.len() > MAX_CHARS {
        return false;
    }
    let motd = result.status.description.to_spans();
    let line4 = info_line1(result);
    let line5 = info_line2(result);
    let count = player_count_spans(result);
    if !is_short(motd.as_slice()) || !is_short(line4.as_slice()) || !is_short(line5.as_slice())
        || !is_short(count.as_slice()) {
        return false;
    }
    let sample = sample_spans(result);
    let ghost lines = sample_lines(result.model().status);
    assert(lines.len() == sample@.len());
    for i in 0..sample.len()
        invariant
            lines == lines_view(sample@),
            lines == sample_lines(result.model().status),
            forall|k: int|
                0 <= k < i ==> layout::char_count(#[trigger] lines[k]) <= MAX_CHARS,
    {
        assert(lines[i as int] == component::span_views(sample@[i as int]@));
        if !is_short(sample[i].as_slice()) {
            return false;
        }
    }
    true
}

/// Draws the card of a server.
pub fn render_server_card(assets: &Assets, result: &PingResult, opts: &CardOptions) -> (r: Canvas)
    requires
        assets.wf(),
        card_fits(result.model(), opts.scale as int, text::opt_view(opts.title)),
    ensures
        r.wf(),
        1 <= r@.w <= MAX_CARD_WIDTH * opts.scale,
        r@.h == card_height() * opts.scale,
        r@ == card_picture(
            result.model(),
            assets.model(),
            opts.scale,
            opts.target,
            opts.old_color_policy,
            opts.background,
            text::opt_view(opts.title),
            opts.checker,
        ),
{
    let s: u32 = opts.scale;
    let look = text_look(s, (128, 128, 128), opts.target, opts.old_color_policy);
    let ctx = Ctx { font: &assets.font, opts: look, fg: (128, 128, 128) };
    let lay = entry_layout(&assets.font, result, &opts.title, s);
    let w: u32 = scaled(lay.full_w, s);
    let h: u32 = scaled(lay.height, s);
    proof {
        assert(w >= 1) by (nonlinear_arith)
            requires
                w == lay.full_w * s,
                lay.full_w >= 1,
                s >= 1,
        ;
        assert(h >= 1) by (nonlinear_arith)
            requires
                h == lay.height * s,
                lay.height >= 1,
                s >= 1,
        ;
        assert(w <= MAX_CARD_WIDTH * s) by (nonlinear_arith)
            requires
                w == lay.full_w * s,
                lay.full_w <= MAX_CARD_WIDTH,
                s >= 1,
        ;
        canvas::lemma_smaller_fits(MAX_CARD_WIDTH * s, h as int, w as int, h as int);
    }
    let mut img = new_canvas(w, h, Some(opts.background));
    draw_entry(&mut img, &ctx, assets, 0, 0, &lay, result, Ghost(text::opt_view(opts.title)));
    if opts.checker {
        let cell: u32 = if 2 * s > 4 {
            2 * s
        } else {
            4
        };
        composite_over_checker(&img, cell)
    } else {
        img
    }
}

/// The PNG file of a server's card.
pub fn render_server_card_png(assets: &Assets, result: &PingResult, opts: &CardOptions) -> (r:
    Result<Vec<u8>, String>)
    requires
        assets.wf(),
        card_fits(result.model(), opts.scale as int, text::opt_view(opts.title)),
    ensures
        motd::png_result(r) == motd::png_file(
            card_picture(
                result.model(),
                assets.model(),
                opts.scale,
                opts.target,
                opts.old_color_policy,
                opts.background,
                text::opt_view(opts.title),
                opts.checker,
            ),
        ),
{
    let img = render_server_card(assets, result, opts);
    encode_png(&img)
}

} // verus!
