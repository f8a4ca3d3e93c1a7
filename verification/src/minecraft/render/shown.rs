//! What pictures show.
//!
//! Each part of a card or a screen shows where nothing that is drawn later covers it.

use vstd::prelude::*;
use crate::minecraft::component;
use crate::minecraft::component::SpanView;
use crate::minecraft::font::VanillaFont;
use crate::minecraft::protocol::ResultView;
use crate::minecraft::render::bidi;
use crate::minecraft::render::canvas;
use crate::minecraft::render::canvas::{in_rect, Picture, Rgba};
use crate::minecraft::render::card;
use crate::minecraft::render::card::{card_picture, with_card, with_sample};
use crate::minecraft::render::draw;
use crate::minecraft::render::draw::Look;
use crate::minecraft::render::gui;
use crate::minecraft::render::gui::AssetsView;
use crate::minecraft::render::info;
use crate::minecraft::render::ink::{
    right_shows, right_texts_are_shown, right_texts_leave_the_rest, right_touches, text_shows,
    text_touches, texts_are_shown, texts_leave_the_rest,
};
use crate::minecraft::render::layout;
use crate::minecraft::render::motd;
use crate::minecraft::render::options::{OldColorPolicy, RenderOptions, TargetVersion};
use crate::minecraft::render::screen;
use crate::minecraft::render::screen::EntryView;

verus! {

// ---- descriptions ----

/// The picture of a description shows its text, behind the space around it, on the background.
pub proof fn descriptions_show_their_text(
    spans: Seq<SpanView>,
    font: VanillaFont,
    opts: RenderOptions,
    x: int,
    y: int,
    c: Rgba,
)
    requires
        motd::motd_picture(spans, font, opts).inside(x, y),
    ensures
        ({
            let look = Look { font, opts, fg: opts.default_color };
            let at = opts.padding * opts.scale;
            let (w, n) = (opts.max_width as int, opts.max_lines as int);
            let pic = motd::motd_picture(spans, font, opts);
            &&& text_shows(look, at, at, spans, w, n, x, y, c) ==> pic.px(x, y) == c
            &&& !text_touches(look, at, at, spans, w, n, x, y) ==> pic.px(x, y) == (
            match opts.background {
                Some(b) => b,
                None => Rgba { r: 0, g: 0, b: 0, a: 0 },
            })
            &&& opts.scale > 0 ==> pic.w == canvas::at_least(
                (2 * opts.padding + opts.max_width) * opts.scale,
                1,
            )
        }),
{
    let look = Look { font, opts, fg: opts.default_color };
    let at = opts.padding * opts.scale;
    let (w, n) = (opts.max_width as int, opts.max_lines as int);
    let ground = motd::ground(
        motd::motd_width(opts),
        motd::motd_height(spans, font, opts),
        opts.background,
    );
    texts_leave_the_rest(ground, look, at, at, spans, w, n, x, y);
    if text_shows(look, at, at, spans, w, n, x, y, c) {
        texts_are_shown(ground, look, at, at, spans, w, n, x, y, c);
    }
}

// ---- cards ----

/// The look of text on a card.
pub open spec fn card_look(
    assets: AssetsView,
    scale: u32,
    target: TargetVersion,
    policy: OldColorPolicy,
    fg: (u8, u8, u8),
) -> Look {
    Look {
        font: assets.font,
        opts: RenderOptions {
            scale,
            max_width: 267,
            max_lines: 2,
            padding: 0,
            default_color: (128, 128, 128),
            background: None,
            shadow: true,
            target,
            old_color_policy: policy,
            obfuscate_seed: 0,
        },
        fg,
    }
}

/// The look in another colour.
pub open spec fn tinted(look: Look, r: u8, g: u8, b: u8) -> Look {
    Look { font: look.font, opts: look.opts, fg: (r, g, b) }
}

/// The room for the title, in GUI pixels: up to the count of the players, but at least eight.
pub open spec fn room(look: Look, right: int, left: int, r: Option<ResultView>) -> int {
    let s = look.opts.scale as int;
    let count = match r {
        Some(v) => layout::measured(info::player_count(v.status), look.font, s),
        None => 0,
    };
    let free = right * s - count - left * s - 4 * s;
    (if free > 8 * s {
        free
    } else {
        8 * s
    }) / s
}

/// An opaque enough pixel of a picture that is laid on a place, enlarged, covers it.
pub open spec fn stamp_covers(p: Picture, left: int, top: int, s: int, x: int, y: int) -> bool {
    p.inside((x - left) / s, (y - top) / s) && p.px((x - left) / s, (y - top) / s).a >= 8
}

/// Something of the box with players covers the place.
pub open spec fn box_covers(look: Look, r: ResultView, x: int, y: int) -> bool {
    let s = look.opts.scale as int;
    let lines = card::sample_lines(r.status);
    let w = card::content_width(lines, look.font, s);
    lines.len() > 0 && (in_rect(
        x,
        y,
        329 * s,
        4 * s,
        (w + 6) * s,
        card::box_height(lines.len() as int) * s,
    ) || sample_touches(tinted(look, 255, 255, 255), 332 * s, 7 * s, lines, w, 0, x, y))
}

/// Something of the lines of the box, from the one with this number on, covers the place.
pub open spec fn sample_touches(
    look: Look,
    left: int,
    top: int,
    lines: Seq<Seq<SpanView>>,
    w: int,
    from: int,
    x: int,
    y: int,
) -> bool {
    exists|m: int|
        from <= m < lines.len() && text_touches(
            look,
            left,
            #[trigger] sample_top(look, top, m),
            lines[m],
            w,
            1,
            x,
            y,
        )
}

/// The top of a line of the box.
pub open spec fn sample_top(look: Look, top: int, m: int) -> int {
    top + m * (9 * look.opts.scale)
}

/// The part of a card with this number covers the place. The parts are: 1 the signal bars, 2 the count
/// of players, 3 the title, 4 the description, 5 and 6 the two lines about the server, 7 the box with
/// players.
pub open spec fn part_covers(
    look: Look,
    assets: AssetsView,
    r: ResultView,
    title: Option<Seq<char>>,
    n: int,
    x: int,
    y: int,
) -> bool {
    let s = look.opts.scale as int;
    let gray = tinted(look, 128, 128, 128);
    if n == 1 {
        stamp_covers(gui::sprite_for(assets, r.latency), 308 * s, 4 * s, s, x, y)
    } else if n == 2 {
        right_touches(gray, 303 * s, 5 * s, info::player_count(r.status), x, y)
    } else if n == 7 {
        box_covers(look, r, x, y)
    } else {
        let (c, top, spans, w, lines) = card_text(look, r, title, n);
        text_touches(tinted(look, c.0, c.1, c.2), 56 * s, top * s, spans, w, lines, x, y)
    }
}

/// The text of a card with this number: its colour, its top in GUI pixels, what it says, how wide it
/// may be and how many lines it may have. All of them start 56 GUI pixels from the left.
pub open spec fn card_text(look: Look, r: ResultView, title: Option<Seq<char>>, n: int) -> (
    (u8, u8, u8),
    int,
    Seq<SpanView>,
    int,
    int,
) {
    if n == 3 {
        (
            (255, 255, 255),
            5,
            info::plain_line(info::title_of(r, title)),
            room(look, 303, 56, Some(r)),
            1,
        )
    } else if n == 4 {
        ((128, 128, 128), 16, component::spans_of(r.status.description), 267, 2)
    } else if n == 5 {
        ((120, 130, 140), 34, info::first_line(r), 267, 1)
    } else {
        ((110, 120, 135), 43, info::second_line(r.status), 267, 1)
    }
}

/// No part of a card from this number on covers the place.
pub open spec fn parts_apart(
    look: Look,
    assets: AssetsView,
    r: ResultView,
    title: Option<Seq<char>>,
    from: int,
    x: int,
    y: int,
) -> bool {
    forall|n: int|
        from <= n <= 7 ==> !#[trigger] part_covers(look, assets, r, title, n, x, y)
}

proof fn lemma_sample_apart(
    p: Picture,
    look: Look,
    left: int,
    top: int,
    lines: Seq<Seq<SpanView>>,
    n: nat,
    w: int,
    x: int,
    y: int,
)
    requires
        n <= lines.len(),
    ensures
        with_sample(p, look, left, top, lines, n, w).w == p.w,
        with_sample(p, look, left, top, lines, n, w).h == p.h,
        (forall|m: int|
            0 <= m < n ==> !text_touches(
                look,
                left,
                #[trigger] sample_top(look, top, m),
                lines[m],
                w,
                1,
                x,
                y,
            )) ==> with_sample(p, look, left, top, lines, n, w).px(x, y) == p.px(x, y),
    decreases n,
{
    if n > 0 {
        let m = (n - 1) as nat;
        lemma_sample_apart(p, look, left, top, lines, m, w, x, y);
        texts_leave_the_rest(
            with_sample(p, look, left, top, lines, m, w),
            look,
            left,
            sample_top(look, top, m as int),
            lines[m as int],
            w,
            1,
            x,
            y,
        );
    }
}

/// A line of the box shows where no later one covers it.
proof fn lemma_sample_on(
    p: Picture,
    look: Look,
    left: int,
    top: int,
    lines: Seq<Seq<SpanView>>,
    n: nat,
    w: int,
    k: int,
    x: int,
    y: int,
    c: Rgba,
)
    requires
        p.inside(x, y),
        0 <= k < n <= lines.len(),
        text_shows(look, left, sample_top(look, top, k), lines[k], w, 1, x, y, c),
        forall|m: int|
            k < m < n ==> !text_touches(
                look,
                left,
                #[trigger] sample_top(look, top, m),
                lines[m],
                w,
                1,
                x,
                y,
            ),
    ensures
        with_sample(p, look, left, top, lines, n, w).px(x, y) == c,
    decreases n,
{
    let m = (n - 1) as nat;
    let before = with_sample(p, look, left, top, lines, m, w);
    let at = sample_top(look, top, m as int);
    lemma_sample_apart(p, look, left, top, lines, m, w, x, y);
    if k == m {
        texts_are_shown(before, look, left, at, lines[k], w, 1, x, y, c);
    } else {
        lemma_sample_on(p, look, left, top, lines, m, w, k, x, y, c);
        texts_leave_the_rest(before, look, left, at, lines[m as int], w, 1, x, y);
    }
}

/// A card with its parts up to the one with this number.
spec fn lower_card(
    p: Picture,
    look: Look,
    assets: AssetsView,
    r: ResultView,
    title: Option<Seq<char>>,
    n: nat,
) -> Picture
    decreases n,
{
    let s = look.opts.scale as int;
    if n == 0 {
        gui::with_icon(p, gui::icon_of(r.status), 4 * s, 4 * s, 48 * s)
    } else {
        let before = lower_card(p, look, assets, r, title, (n - 1) as nat);
        if n == 1 {
            before.stamped(gui::sprite_for(assets, r.latency), 308 * s, 4 * s, s)
        } else if n == 2 {
            draw::with_right(
                before,
                tinted(look, 128, 128, 128),
                303 * s,
                5 * s,
                info::player_count(r.status),
            )
        } else {
            let (c, top, spans, w, lines) = card_text(look, r, title, n as int);
            draw::with_block(
                before,
                tinted(look, c.0, c.1, c.2),
                56 * s,
                top * s,
                spans,
                w,
                lines,
            )
        }
    }
}

proof fn lemma_lower_size(
    p: Picture,
    look: Look,
    assets: AssetsView,
    r: ResultView,
    title: Option<Seq<char>>,
    n: nat,
)
    ensures
        lower_card(p, look, assets, r, title, n).w == p.w,
        lower_card(p, look, assets, r, title, n).h == p.h,
    decreases n,
{
    let s = look.opts.scale as int;
    if n > 0 {
        let m = (n - 1) as nat;
        let before = lower_card(p, look, assets, r, title, m);
        lemma_lower_size(p, look, assets, r, title, m);
        if n == 2 {
            let gray = tinted(look, 128, 128, 128);
            let count = info::player_count(r.status);
            right_texts_leave_the_rest(before, gray, 303 * s, 5 * s, count, 0, 0);
        } else if n > 2 {
            let (c, top, spans, w, lines) = card_text(look, r, title, n as int);
            let tint = tinted(look, c.0, c.1, c.2);
            texts_leave_the_rest(before, tint, 56 * s, top * s, spans, w, lines, 0, 0);
        }
    }
}

proof fn lemma_lower_card(
    p: Picture,
    look: Look,
    assets: AssetsView,
    r: ResultView,
    title: Option<Seq<char>>,
    n: nat,
    from: nat,
    x: int,
    y: int,
)
    requires
        look.opts.scale > 0,
        from <= n <= 6,
        parts_apart(look, assets, r, title, from as int + 1, x, y),
    ensures
        lower_card(p, look, assets, r, title, n).px(x, y) == lower_card(
            p,
            look,
            assets,
            r,
            title,
            from,
        ).px(x, y),
    decreases n,
{
    let s = look.opts.scale as int;
    if from < n {
        let m = (n - 1) as nat;
        let before = lower_card(p, look, assets, r, title, m);
        lemma_lower_card(p, look, assets, r, title, m, from, x, y);
        assert(!part_covers(look, assets, r, title, n as int, x, y));
        if n == 2 {
            let gray = tinted(look, 128, 128, 128);
            let count = info::player_count(r.status);
            right_texts_leave_the_rest(before, gray, 303 * s, 5 * s, count, x, y);
        } else if n > 2 {
            let (c, top, spans, w, lines) = card_text(look, r, title, n as int);
            let tint = tinted(look, c.0, c.1, c.2);
            texts_leave_the_rest(before, tint, 56 * s, top * s, spans, w, lines, x, y);
        }
    }
}

/// A card with all its parts.
spec fn layered_card(
    p: Picture,
    look: Look,
    assets: AssetsView,
    r: ResultView,
    title: Option<Seq<char>>,
) -> Picture {
    let s = look.opts.scale as int;
    let lines = card::sample_lines(r.status);
    let w = card::content_width(lines, look.font, s);
    let lower = lower_card(p, look, assets, r, title, 6);
    if lines.len() > 0 {
        with_sample(
            card::with_box(
                lower,
                329 * s,
                4 * s,
                (w + 6) * s,
                card::box_height(lines.len() as int) * s,
                s,
            ),
            tinted(look, 255, 255, 255),
            332 * s,
            7 * s,
            lines,
            lines.len(),
            w,
        )
    } else {
        lower
    }
}

proof fn lemma_empty_text(p: Picture, look: Look, left: int, top: int, w: int, n: int)
    ensures
        draw::with_block(p, look, left, top, Seq::empty(), w, n) == p,
{
    let s = look.opts.scale as int;
    let none = Seq::<SpanView>::empty();
    assert(layout::flow(none, look.font, layout::limit(w, s), s) == layout::start());
    assert(layout::laid_out(none, look.font, w, n, s).len() == 0);
}

#[verifier::rlimit(60)]
proof fn lemma_card_layers(
    p: Picture,
    look: Look,
    assets: AssetsView,
    r: ResultView,
    title: Option<Seq<char>>,
)
    ensures
        with_card(p, look, assets, 0, 0, r, title) == layered_card(p, look, assets, r, title),
{
    reveal_with_fuel(lower_card, 8);
    let s = look.opts.scale as int;
    let l0 = lower_card(p, look, assets, r, title, 0);
    let l1 = lower_card(p, look, assets, r, title, 1);
    let l2 = lower_card(p, look, assets, r, title, 2);
    let l3 = lower_card(p, look, assets, r, title, 3);
    let l4 = lower_card(p, look, assets, r, title, 4);
    let l5 = lower_card(p, look, assets, r, title, 5);
    let l6 = lower_card(p, look, assets, r, title, 6);
    if info::second_line(r.status).len() == 0 {
        assert(info::second_line(r.status) =~= Seq::empty());
        lemma_empty_text(l5, tinted(look, 110, 120, 135), 56 * s, 43 * s, 267, 1);
    }
}

/// The box changes nothing outside of its rectangle, and fills it.
proof fn lemma_box(p: Picture, left: int, top: int, w: int, h: int, s: int, x: int, y: int)
    requires
        0 < s <= w,
    ensures
        card::with_box(p, left, top, w, h, s).w == p.w,
        card::with_box(p, left, top, w, h, s).h == p.h,
        !in_rect(x, y, left, top, w, h) && h >= s ==> card::with_box(p, left, top, w, h, s).px(x, y)
            == p.px(x, y),
        p.inside(x, y) && in_rect(x, y, left + s, top + s, w - 2 * s, h - 2 * s) ==> card::with_box(
            p,
            left,
            top,
            w,
            h,
            s,
        ).px(x, y) == canvas::solid(16, 0, 16),
{
}

proof fn lemma_box_size(r: ResultView, look: Look)
    requires
        look.opts.scale > 0,
    ensures
        ({
            let s = look.opts.scale as int;
            let lines = card::sample_lines(r.status);
            let w = card::content_width(lines, look.font, s);
            &&& (w + 6) * s >= 14 * s
            &&& lines.len() > 0 ==> card::box_height(lines.len() as int) * s >= 15 * s
        }),
{
    let s = look.opts.scale as int;
    let lines = card::sample_lines(r.status);
    let w = card::content_width(lines, look.font, s);
    let h = card::box_height(lines.len() as int);
    assert((w + 6) * s >= 14 * s) by (nonlinear_arith)
        requires
            w >= 8,
            s > 0,
    ;
    if lines.len() > 0 {
        assert(h * s >= 15 * s) by (nonlinear_arith)
            requires
                h >= 15,
                s > 0,
        ;
    }
}

proof fn lemma_upper_card(
    p: Picture,
    look: Look,
    assets: AssetsView,
    r: ResultView,
    title: Option<Seq<char>>,
    x: int,
    y: int,
)
    requires
        look.opts.scale > 0,
    ensures
        layered_card(p, look, assets, r, title).w == p.w,
        layered_card(p, look, assets, r, title).h == p.h,
        !part_covers(look, assets, r, title, 7, x, y) ==> layered_card(
            p,
            look,
            assets,
            r,
            title,
        ).px(x, y) == lower_card(p, look, assets, r, title, 6).px(x, y),
{
    let s = look.opts.scale as int;
    let lines = card::sample_lines(r.status);
    let w = card::content_width(lines, look.font, s);
    let h = card::box_height(lines.len() as int) * s;
    let lower = lower_card(p, look, assets, r, title, 6);
    lemma_lower_size(p, look, assets, r, title, 6);
    if lines.len() > 0 {
        lemma_box_size(r, look);
        lemma_box(lower, 329 * s, 4 * s, (w + 6) * s, h, s, x, y);
        let boxed = card::with_box(lower, 329 * s, 4 * s, (w + 6) * s, h, s);
        let white = tinted(look, 255, 255, 255);
        lemma_sample_apart(boxed, white, 332 * s, 7 * s, lines, lines.len(), w, x, y);
    }
}

proof fn lemma_ink_is_opaque(
    look: Look,
    left: int,
    top: int,
    spans: Seq<SpanView>,
    w: int,
    n: int,
    x: int,
    y: int,
    c: Rgba,
)
    ensures
        text_shows(look, left, top, spans, w, n, x, y, c) ==> c.a == 255,
        right_shows(look, left, top, spans, x, y, c) ==> c.a == 255,
{
}

proof fn lemma_opaque_stays(p: Picture, cell: int, x: int, y: int)
    requires
        p.inside(x, y),
        p.px(x, y).a == 255,
    ensures
        canvas::over_checker(p, cell).px(x, y) == p.px(x, y),
{
}

/// The picture of a card is that of its parts, which a checkerboard behind it leaves as they are
/// where they are opaque.
proof fn lemma_card_picture(
    r: ResultView,
    assets: AssetsView,
    scale: u32,
    target: TargetVersion,
    policy: OldColorPolicy,
    background: Rgba,
    title: Option<Seq<char>>,
    checker: bool,
    x: int,
    y: int,
) -> (p: Picture)
    requires
        scale > 0,
        card_picture(r, assets, scale, target, policy, background, title, checker).inside(x, y),
    ensures
        p.inside(x, y),
        p.px(x, y) == background,
        ({
            let look = card_look(assets, scale, target, policy, (128, 128, 128));
            let all = layered_card(p, look, assets, r, title);
            let pic = card_picture(r, assets, scale, target, policy, background, title, checker);
            !checker || all.px(x, y).a == 255 ==> pic.px(x, y) == all.px(x, y)
        }),
{
    let p = motd::ground(
        card::card_width(r.status, assets.font, scale as int) * scale,
        card::card_height() * scale,
        Some(background),
    );
    let look = card_look(assets, scale, target, policy, (128, 128, 128));
    lemma_card_layers(p, look, assets, r, title);
    lemma_upper_card(p, look, assets, r, title, x, y);
    let all = layered_card(p, look, assets, r, title);
    if checker && all.px(x, y).a == 255 {
        lemma_opaque_stays(all, card::checker_cell(scale as int), x, y);
    }
    p
}

/// A card shows its texts: the title in white at (56, 5), the description in gray at (56, 16) on up
/// to two lines 267 wide, and the two lines about the server below it. Where one of them has ink and
/// no later part of the card covers the place, it has the colour of that text.
#[verifier::rlimit(60)]
pub proof fn cards_show_their_texts(
    r: ResultView,
    assets: AssetsView,
    scale: u32,
    target: TargetVersion,
    policy: OldColorPolicy,
    background: Rgba,
    title: Option<Seq<char>>,
    checker: bool,
    n: int,
    x: int,
    y: int,
    c: Rgba,
)
    requires
        scale > 0,
        card_picture(r, assets, scale, target, policy, background, title, checker).inside(x, y),
        3 <= n <= 6,
        ({
            let look = card_look(assets, scale, target, policy, (128, 128, 128));
            let (fg, top, spans, w, lines) = card_text(look, r, title, n);
            &&& text_shows(
                card_look(assets, scale, target, policy, fg),
                56 * scale,
                top * scale,
                spans,
                w,
                lines,
                x,
                y,
                c,
            )
            &&& parts_apart(look, assets, r, title, n + 1, x, y)
        }),
    ensures
        card_picture(r, assets, scale, target, policy, background, title, checker).px(x, y) == c,
{
    let look = card_look(assets, scale, target, policy, (128, 128, 128));
    let s = scale as int;
    let p = lemma_card_picture(
        r,
        assets,
        scale,
        target,
        policy,
        background,
        title,
        checker,
        x,
        y,
    );
    let (fg, top, spans, w, lines) = card_text(look, r, title, n);
    let before = lower_card(p, look, assets, r, title, (n - 1) as nat);
    let tint = tinted(look, fg.0, fg.1, fg.2);
    assert(tint == card_look(assets, scale, target, policy, fg));
    lemma_lower_size(p, look, assets, r, title, (n - 1) as nat);
    texts_are_shown(before, tint, 56 * s, top * s, spans, w, lines, x, y, c);
    lemma_lower_card(p, look, assets, r, title, 6, n as nat, x, y);
    assert(!part_covers(look, assets, r, title, 7, x, y));
    lemma_upper_card(p, look, assets, r, title, x, y);
    lemma_ink_is_opaque(tint, 56 * s, top * s, spans, w, lines, x, y, c);
}

/// A card shows the description of its server below the title: each place that its ink covers, and
/// that nothing drawn later covers, has the colour of that ink.
pub proof fn cards_show_the_description(
    r: ResultView,
    assets: AssetsView,
    scale: u32,
    target: TargetVersion,
    policy: OldColorPolicy,
    background: Rgba,
    title: Option<Seq<char>>,
    checker: bool,
    x: int,
    y: int,
    c: Rgba,
)
    requires
        scale > 0,
        card_picture(r, assets, scale, target, policy, background, title, checker).inside(x, y),
        text_shows(
            card_look(assets, scale, target, policy, (128, 128, 128)),
            56 * scale,
            16 * scale,
            component::spans_of(r.status.description),
            267,
            2,
            x,
            y,
            c,
        ),
        parts_apart(
            card_look(assets, scale, target, policy, (128, 128, 128)),
            assets,
            r,
            title,
            5,
            x,
            y,
        ),
    ensures
        card_picture(r, assets, scale, target, policy, background, title, checker).px(x, y) == c,
{
    cards_show_their_texts(
        r,
        assets,
        scale,
        target,
        policy,
        background,
        title,
        checker,
        4,
        x,
        y,
        c,
    );
}

/// A card shows the count of players in gray, ending 303 GUI pixels from the left.
pub proof fn cards_show_the_count(
    r: ResultView,
    assets: AssetsView,
    scale: u32,
    target: TargetVersion,
    policy: OldColorPolicy,
    background: Rgba,
    title: Option<Seq<char>>,
    checker: bool,
    x: int,
    y: int,
    c: Rgba,
)
    requires
        scale > 0,
        card_picture(r, assets, scale, target, policy, background, title, checker).inside(x, y),
        right_shows(
            card_look(assets, scale, target, policy, (128, 128, 128)),
            303 * scale,
            5 * scale,
            info::player_count(r.status),
            x,
            y,
            c,
        ),
        parts_apart(
            card_look(assets, scale, target, policy, (128, 128, 128)),
            assets,
            r,
            title,
            3,
            x,
            y,
        ),
    ensures
        card_picture(r, assets, scale, target, policy, background, title, checker).px(x, y) == c,
{
    let look = card_look(assets, scale, target, policy, (128, 128, 128));
    let s = scale as int;
    let p = lemma_card_picture(
        r,
        assets,
        scale,
        target,
        policy,
        background,
        title,
        checker,
        x,
        y,
    );
    let before = lower_card(p, look, assets, r, title, 1);
    let count = info::player_count(r.status);
    lemma_lower_size(p, look, assets, r, title, 1);
    assert(tinted(look, 128, 128, 128) == look);
    right_texts_are_shown(before, look, 303 * s, 5 * s, count, x, y, c);
    lemma_lower_card(p, look, assets, r, title, 6, 2, x, y);
    assert(!part_covers(look, assets, r, title, 7, x, y));
    lemma_upper_card(p, look, assets, r, title, x, y);
    lemma_ink_is_opaque(look, 303 * s, 5 * s, count, 0, 0, x, y, c);
}

/// A card shows up to five of the players in a box: each on a line of its own, in white, and the box
/// is dark between its lines.
#[verifier::rlimit(60)]
pub proof fn cards_show_the_players(
    r: ResultView,
    assets: AssetsView,
    scale: u32,
    target: TargetVersion,
    policy: OldColorPolicy,
    background: Rgba,
    title: Option<Seq<char>>,
    checker: bool,
    k: int,
    x: int,
    y: int,
    c: Rgba,
)
    requires
        scale > 0,
        card_picture(r, assets, scale, target, policy, background, title, checker).inside(x, y),
        r.status.players is Some,
        0 <= k < r.status.players->0.sample.len(),
        k < 5,
    ensures
        ({
            let s = scale as int;
            let white = card_look(assets, scale, target, policy, (255, 255, 255));
            let lines = card::sample_lines(r.status);
            let w = card::content_width(lines, assets.font, s);
            let pic = card_picture(r, assets, scale, target, policy, background, title, checker);
            let name = component::spans_of(
                component::text_view(r.status.players->0.sample[k].0),
            );
            &&& text_shows(white, 332 * s, sample_top(white, 7 * s, k), name, w, 1, x, y, c)
                && !sample_touches(white, 332 * s, 7 * s, lines, w, k + 1, x, y) ==> pic.px(x, y)
                == c
            &&& in_rect(
                x,
                y,
                330 * s,
                5 * s,
                (w + 6) * s - 2 * s,
                card::box_height(lines.len() as int) * s - 2 * s,
            ) && !sample_touches(white, 332 * s, 7 * s, lines, w, 0, x, y) ==> pic.px(x, y)
                == canvas::solid(16, 0, 16)
        }),
{
    let look = card_look(assets, scale, target, policy, (128, 128, 128));
    let s = scale as int;
    let p = lemma_card_picture(
        r,
        assets,
        scale,
        target,
        policy,
        background,
        title,
        checker,
        x,
        y,
    );
    let lines = card::sample_lines(r.status);
    let w = card::content_width(lines, look.font, s);
    let h = card::box_height(lines.len() as int) * s;
    let lower = lower_card(p, look, assets, r, title, 6);
    lemma_lower_size(p, look, assets, r, title, 6);
    lemma_box_size(r, look);
    lemma_box(lower, 329 * s, 4 * s, (w + 6) * s, h, s, x, y);
    let boxed = card::with_box(lower, 329 * s, 4 * s, (w + 6) * s, h, s);
    let white = tinted(look, 255, 255, 255);
    assert(white == card_look(assets, scale, target, policy, (255, 255, 255)));
    lemma_sample_apart(boxed, white, 332 * s, 7 * s, lines, lines.len(), w, x, y);
    let at = sample_top(white, 7 * s, k);
    if text_shows(white, 332 * s, at, lines[k], w, 1, x, y, c) && !sample_touches(
        white,
        332 * s,
        7 * s,
        lines,
        w,
        k + 1,
        x,
        y,
    ) {
        lemma_sample_on(boxed, white, 332 * s, 7 * s, lines, lines.len(), w, k, x, y, c);
        lemma_ink_is_opaque(white, 332 * s, at, lines[k], w, 1, x, y, c);
    }
}

/// A card shows the icon of the server in its square, or an empty frame, the signal bars of the
/// latency, and its background everywhere else.
#[verifier::rlimit(60)]
pub proof fn cards_show_icon_and_bars(
    r: ResultView,
    assets: AssetsView,
    scale: u32,
    target: TargetVersion,
    policy: OldColorPolicy,
    background: Rgba,
    title: Option<Seq<char>>,
    x: int,
    y: int,
)
    requires
        scale > 0,
        card_picture(r, assets, scale, target, policy, background, title, false).inside(x, y),
        parts_apart(
            card_look(assets, scale, target, policy, (128, 128, 128)),
            assets,
            r,
            title,
            2,
            x,
            y,
        ),
    ensures
        ({
            let s = scale as int;
            let pic = card_picture(r, assets, scale, target, policy, background, title, false);
            let bars = gui::sprite_for(assets, r.latency);
            let on_bars = stamp_covers(bars, 308 * s, 4 * s, s, x, y);
            let on_icon = in_rect(x, y, 4 * s, 4 * s, 48 * s, 48 * s);
            let edge = x == 4 * s || y == 4 * s || x == 52 * s - 1 || y == 52 * s - 1;
            &&& on_bars ==> pic.px(x, y) == bars.px((x - 308 * s) / s, (y - 4 * s) / s)
            &&& !on_bars && !on_icon ==> pic.px(x, y) == background
            &&& !on_bars && on_icon ==> match gui::icon_of(r.status) {
                Some(i) => pic.px(x, y) == i.px(
                    (x - 4 * s) * i.w / (48 * s),
                    (y - 4 * s) * i.h / (48 * s),
                ),
                None => pic.px(x, y) == (if edge {
                    canvas::solid(80, 80, 90)
                } else {
                    canvas::solid(40, 40, 48)
                }),
            }
        }),
{
    let look = card_look(assets, scale, target, policy, (128, 128, 128));
    let s = scale as int;
    let p = lemma_card_picture(
        r,
        assets,
        scale,
        target,
        policy,
        background,
        title,
        false,
        x,
        y,
    );
    lemma_lower_size(p, look, assets, r, title, 0);
    lemma_lower_card(p, look, assets, r, title, 6, 1, x, y);
    assert(!part_covers(look, assets, r, title, 7, x, y));
    lemma_upper_card(p, look, assets, r, title, x, y);
    reveal_with_fuel(lower_card, 3);
}

/// The signal bars tell how long the server took to answer: five below 150 milliseconds, four below
/// 300, three below 600, two below 1000, one above; without a latency it is not reachable.
pub proof fn bars_tell_the_latency(assets: AssetsView, ms: u128)
    ensures
        gui::sprite_for(assets, None) == assets.unreachable,
        ms < 150 ==> gui::sprite_for(assets, Some(ms)) == assets.bars[4],
        150 <= ms < 300 ==> gui::sprite_for(assets, Some(ms)) == assets.bars[3],
        300 <= ms < 600 ==> gui::sprite_for(assets, Some(ms)) == assets.bars[2],
        600 <= ms < 1000 ==> gui::sprite_for(assets, Some(ms)) == assets.bars[1],
        1000 <= ms ==> gui::sprite_for(assets, Some(ms)) == assets.bars[0],
{
}

/// A card is 56 GUI pixels high, and as wide as its parts: 327, or as much as the box with players
/// needs.
pub proof fn cards_are_as_large_as_their_parts(
    r: ResultView,
    assets: AssetsView,
    scale: u32,
    target: TargetVersion,
    policy: OldColorPolicy,
    background: Rgba,
    title: Option<Seq<char>>,
    checker: bool,
)
    requires
        scale > 0,
    ensures
        ({
            let pic = card_picture(r, assets, scale, target, policy, background, title, checker);
            let lines = card::sample_lines(r.status);
            &&& pic.h == 56 * scale
            &&& lines.len() == 0 ==> pic.w == 327 * scale
            &&& lines.len() > 0 ==> pic.w == (339 + card::content_width(
                lines,
                assets.font,
                scale as int,
            )) * scale
        }),
{
    let p = motd::ground(
        card::card_width(r.status, assets.font, scale as int) * scale,
        card::card_height() * scale,
        Some(background),
    );
    let look = card_look(assets, scale, target, policy, (128, 128, 128));
    lemma_card_layers(p, look, assets, r, title);
    lemma_upper_card(p, look, assets, r, title, 0, 0);
    let w = card::card_width(r.status, assets.font, scale as int);
    assert(w * scale >= 327) by (nonlinear_arith)
        requires
            w >= 327,
            scale >= 1,
    ;
}

// ---- entries of a list ----

/// The look of text on a screen.
pub open spec fn list_look(
    assets: AssetsView,
    scale: u32,
    target: TargetVersion,
    policy: OldColorPolicy,
    fg: (u8, u8, u8),
) -> Look {
    Look {
        font: assets.font,
        opts: RenderOptions {
            scale: if scale > 1 {
                scale
            } else {
                1
            },
            max_width: 267,
            max_lines: 2,
            padding: 0,
            default_color: (0xAA, 0xAA, 0xAA),
            background: None,
            shadow: true,
            target,
            old_color_policy: policy,
            obfuscate_seed: 0,
        },
        fg,
    }
}

/// A text of an entry whose top is `top`: 3 its name, in white; 4 its description, in gray on up to
/// two lines, or that the server cannot be reached, in red. It starts 98 GUI pixels from the left.
pub open spec fn entry_text(
    look: Look,
    name: Seq<char>,
    r: Option<ResultView>,
    top: int,
    n: int,
) -> ((u8, u8, u8), int, Seq<SpanView>, int, int) {
    if n == 3 {
        ((255, 255, 255), top + 1, info::plain_line(name), room(look, 351, 98, r), 1)
    } else {
        match r {
            Some(v) => (
                (0xAA, 0xAA, 0xAA),
                top + 12,
                component::spans_of(v.status.description),
                267,
                2,
            ),
            None => ((255, 85, 85), top + 12, info::plain_line("无法连接到服务器"@), 267, 1),
        }
    }
}

/// The signal bars of an entry.
pub open spec fn entry_bars(assets: AssetsView, r: Option<ResultView>) -> Picture {
    match r {
        Some(v) => gui::sprite_for(assets, v.latency),
        None => assets.unreachable,
    }
}

/// A part of an entry covers the place: 0 its icon, 1 the signal bars, 2 the count of players, 3 its
/// name, 4 its description.
pub open spec fn entry_covers(
    look: Look,
    assets: AssetsView,
    name: Seq<char>,
    r: Option<ResultView>,
    top: int,
    n: int,
    x: int,
    y: int,
) -> bool {
    let s = look.opts.scale as int;
    if n == 0 {
        in_rect(x, y, 63 * s, top * s, 32 * s, 32 * s)
    } else if n == 1 {
        stamp_covers(entry_bars(assets, r), 353 * s, top * s, s, x, y)
    } else if n == 2 {
        &&& r is Some
        &&& right_touches(
            tinted(look, 0xAA, 0xAA, 0xAA),
            351 * s,
            (top + 1) * s,
            info::player_count(r->0.status),
            x,
            y,
        )
    } else {
        let (c, at, spans, w, lines) = entry_text(look, name, r, top, n);
        text_touches(tinted(look, c.0, c.1, c.2), 98 * s, at * s, spans, w, lines, x, y)
    }
}

/// No part of an entry from this number on covers the place.
pub open spec fn entry_apart(
    look: Look,
    assets: AssetsView,
    name: Seq<char>,
    r: Option<ResultView>,
    top: int,
    from: int,
    x: int,
    y: int,
) -> bool {
    forall|n: int|
        from <= n <= 4 ==> !#[trigger] entry_covers(look, assets, name, r, top, n, x, y)
}

/// An entry with its parts up to the one with this number.
spec fn lower_entry(
    p: Picture,
    look: Look,
    assets: AssetsView,
    name: Seq<char>,
    r: Option<ResultView>,
    top: int,
    n: nat,
) -> Picture
    decreases n,
{
    let s = look.opts.scale as int;
    if n == 0 {
        gui::with_icon(
            p,
            match r {
                Some(v) => gui::icon_of(v.status),
                None => None,
            },
            63 * s,
            top * s,
            32 * s,
        )
    } else {
        let before = lower_entry(p, look, assets, name, r, top, (n - 1) as nat);
        if n == 1 {
            before.stamped(entry_bars(assets, r), 353 * s, top * s, s)
        } else if n == 2 {
            match r {
                Some(v) => draw::with_right(
                    before,
                    tinted(look, 0xAA, 0xAA, 0xAA),
                    351 * s,
                    (top + 1) * s,
                    info::player_count(v.status),
                ),
                None => before,
            }
        } else {
            let (c, at, spans, w, lines) = entry_text(look, name, r, top, n as int);
            draw::with_block(before, tinted(look, c.0, c.1, c.2), 98 * s, at * s, spans, w, lines)
        }
    }
}

#[verifier::rlimit(60)]
proof fn lemma_entry_layers(
    p: Picture,
    look: Look,
    assets: AssetsView,
    name: Seq<char>,
    r: Option<ResultView>,
    top: int,
)
    ensures
        screen::with_entry(p, look, assets, 63, top, name, r) == lower_entry(
            p,
            look,
            assets,
            name,
            r,
            top,
            4,
        ),
{
    reveal_with_fuel(lower_entry, 6);
    let s = look.opts.scale as int;
    let l0 = lower_entry(p, look, assets, name, r, top, 0);
    let l1 = lower_entry(p, look, assets, name, r, top, 1);
    let l2 = lower_entry(p, look, assets, name, r, top, 2);
    let l3 = lower_entry(p, look, assets, name, r, top, 3);
}

proof fn lemma_entry_size(
    p: Picture,
    look: Look,
    assets: AssetsView,
    name: Seq<char>,
    r: Option<ResultView>,
    top: int,
    n: nat,
)
    ensures
        lower_entry(p, look, assets, name, r, top, n).w == p.w,
        lower_entry(p, look, assets, name, r, top, n).h == p.h,
    decreases n,
{
    let s = look.opts.scale as int;
    if n > 0 {
        let m = (n - 1) as nat;
        let before = lower_entry(p, look, assets, name, r, top, m);
        lemma_entry_size(p, look, assets, name, r, top, m);
        if n == 2 {
            if let Some(v) = r {
                let gray = tinted(look, 0xAA, 0xAA, 0xAA);
                let count = info::player_count(v.status);
                right_texts_leave_the_rest(before, gray, 351 * s, (top + 1) * s, count, 0, 0);
            }
        } else if n > 2 {
            let (c, at, spans, w, lines) = entry_text(look, name, r, top, n as int);
            let tint = tinted(look, c.0, c.1, c.2);
            texts_leave_the_rest(before, tint, 98 * s, at * s, spans, w, lines, 0, 0);
        }
    }
}

proof fn lemma_lower_entry(
    p: Picture,
    look: Look,
    assets: AssetsView,
    name: Seq<char>,
    r: Option<ResultView>,
    top: int,
    n: nat,
    from: nat,
    x: int,
    y: int,
)
    requires
        look.opts.scale > 0,
        from <= n <= 4,
        entry_apart(look, assets, name, r, top, from as int + 1, x, y),
    ensures
        lower_entry(p, look, assets, name, r, top, n).px(x, y) == lower_entry(
            p,
            look,
            assets,
            name,
            r,
            top,
            from,
        ).px(x, y),
    decreases n,
{
    let s = look.opts.scale as int;
    if from < n {
        let m = (n - 1) as nat;
        let before = lower_entry(p, look, assets, name, r, top, m);
        lemma_lower_entry(p, look, assets, name, r, top, m, from, x, y);
        assert(!entry_covers(look, assets, name, r, top, n as int, x, y));
        if n == 2 {
            if let Some(v) = r {
                let gray = tinted(look, 0xAA, 0xAA, 0xAA);
                let count = info::player_count(v.status);
                right_texts_leave_the_rest(before, gray, 351 * s, (top + 1) * s, count, x, y);
            }
        } else if n > 2 {
            let (c, at, spans, w, lines) = entry_text(look, name, r, top, n as int);
            let tint = tinted(look, c.0, c.1, c.2);
            texts_leave_the_rest(before, tint, 98 * s, at * s, spans, w, lines, x, y);
        }
    }
}

/// An entry changes nothing beside its parts.
pub proof fn entries_leave_the_rest(
    p: Picture,
    look: Look,
    assets: AssetsView,
    name: Seq<char>,
    r: Option<ResultView>,
    top: int,
    x: int,
    y: int,
)
    requires
        look.opts.scale > 0,
    ensures
        screen::with_entry(p, look, assets, 63, top, name, r).w == p.w,
        screen::with_entry(p, look, assets, 63, top, name, r).h == p.h,
        entry_apart(look, assets, name, r, top, 0, x, y) ==> screen::with_entry(
            p,
            look,
            assets,
            63,
            top,
            name,
            r,
        ).px(x, y) == p.px(x, y),
{
    lemma_entry_layers(p, look, assets, name, r, top);
    lemma_entry_size(p, look, assets, name, r, top, 4);
    if entry_apart(look, assets, name, r, top, 0, x, y) {
        lemma_lower_entry(p, look, assets, name, r, top, 4, 0, x, y);
        assert(!entry_covers(look, assets, name, r, top, 0, x, y));
    }
}

/// An entry shows this at the place: its name or its description in the colour `c` (3 and 4), the
/// count of players (2), its signal bars (1) or its icon (0), and no later part of it covers that.
pub open spec fn entry_shows(
    look: Look,
    assets: AssetsView,
    name: Seq<char>,
    r: Option<ResultView>,
    top: int,
    n: int,
    x: int,
    y: int,
    c: Rgba,
) -> bool {
    let s = look.opts.scale as int;
    &&& entry_apart(look, assets, name, r, top, n + 1, x, y)
    &&& if n == 0 {
        let edge = x == 63 * s || y == top * s || x == 95 * s - 1 || y == top * s + 32 * s - 1;
        &&& in_rect(x, y, 63 * s, top * s, 32 * s, 32 * s)
        &&& if r is Some && gui::icon_of(r->0.status) is Some {
            let i = gui::icon_of(r->0.status)->0;
            c == i.px((x - 63 * s) * i.w / (32 * s), (y - top * s) * i.h / (32 * s))
        } else if edge {
            c == canvas::solid(80, 80, 90)
        } else {
            c == canvas::solid(40, 40, 48)
        }
    } else if n == 1 {
        let bars = entry_bars(assets, r);
        &&& stamp_covers(bars, 353 * s, top * s, s, x, y)
        &&& c == bars.px((x - 353 * s) / s, (y - top * s) / s)
    } else if n == 2 {
        &&& r is Some
        &&& right_shows(
            tinted(look, 0xAA, 0xAA, 0xAA),
            351 * s,
            (top + 1) * s,
            info::player_count(r->0.status),
            x,
            y,
            c,
        )
    } else {
        let (fg, at, spans, w, lines) = entry_text(look, name, r, top, n);
        text_shows(tinted(look, fg.0, fg.1, fg.2), 98 * s, at * s, spans, w, lines, x, y, c)
    }
}

/// An entry shows its icon, its signal bars, the count of its players, its name and its description,
/// or that it cannot be reached.
pub proof fn entries_show_their_parts(
    p: Picture,
    look: Look,
    assets: AssetsView,
    name: Seq<char>,
    r: Option<ResultView>,
    top: int,
    n: int,
    x: int,
    y: int,
    c: Rgba,
)
    requires
        look.opts.scale > 0,
        p.inside(x, y),
        0 <= n <= 4,
        entry_shows(look, assets, name, r, top, n, x, y, c),
    ensures
        screen::with_entry(p, look, assets, 63, top, name, r).px(x, y) == c,
{
    let s = look.opts.scale as int;
    lemma_entry_layers(p, look, assets, name, r, top);
    lemma_lower_entry(p, look, assets, name, r, top, 4, n as nat, x, y);
    if n > 0 {
        let m = (n - 1) as nat;
        let before = lower_entry(p, look, assets, name, r, top, m);
        lemma_entry_size(p, look, assets, name, r, top, m);
        if n == 2 {
            let gray = tinted(look, 0xAA, 0xAA, 0xAA);
            let count = info::player_count(r->0.status);
            right_texts_are_shown(before, gray, 351 * s, (top + 1) * s, count, x, y, c);
        } else if n > 2 {
            let (fg, at, spans, w, lines) = entry_text(look, name, r, top, n);
            let tint = tinted(look, fg.0, fg.1, fg.2);
            texts_are_shown(before, tint, 98 * s, at * s, spans, w, lines, x, y, c);
        }
    }
}

// ---- buttons ----

/// The buttons at the bottom of a screen of the height `h`: left edge, top, width and label.
pub open spec fn button(h: int, i: int) -> (int, int, int, Seq<char>) {
    if i == 0 {
        (59, h - 52, 100, "Join Server"@)
    } else if i == 1 {
        (163, h - 52, 100, "Direct Connection"@)
    } else if i == 2 {
        (267, h - 52, 100, "Add Server"@)
    } else if i == 3 {
        (59, h - 28, 70, "Edit"@)
    } else if i == 4 {
        (139, h - 28, 70, "Delete"@)
    } else if i == 5 {
        (217, h - 28, 70, "Refresh"@)
    } else {
        (293, h - 28, 75, "Cancel"@)
    }
}

/// Where the label of a button starts, so that it stands in the middle.
pub open spec fn label_left(look: Look, left: int, w: int, label: Seq<char>) -> int {
    let s = look.opts.scale as int;
    left * s + gui::half(w * s - layout::measured(info::plain_line(label), look.font, s))
}

/// A button or its label covers the place.
pub open spec fn button_covers(look: Look, h: int, i: int, x: int, y: int) -> bool {
    let s = look.opts.scale as int;
    let (left, top, w, label) = button(h, i);
    in_rect(x / s, y / s, left, top, w, 20) || label_touches(look, h, i, x, y)
}

/// The label of a button covers the place.
pub open spec fn label_touches(look: Look, h: int, i: int, x: int, y: int) -> bool {
    let s = look.opts.scale as int;
    let (left, top, w, label) = button(h, i);
    text_touches(
        tinted(look, 255, 255, 255),
        label_left(look, left, w, label),
        top * s + 6 * s,
        info::plain_line(label),
        w,
        1,
        x,
        y,
    )
}

/// No button from this number on covers the place.
pub open spec fn buttons_apart(look: Look, h: int, from: int, x: int, y: int) -> bool {
    forall|i: int| from <= i < 7 ==> !#[trigger] button_covers(look, h, i, x, y)
}

/// A screen with its first buttons.
spec fn first_buttons(p: Picture, look: Look, tex: Picture, h: int, n: nat) -> Picture
    decreases n,
{
    if n == 0 {
        p
    } else {
        let (left, top, w, label) = button(h, n - 1);
        gui::with_button(
            first_buttons(p, look, tex, h, (n - 1) as nat),
            look,
            tex,
            left,
            top,
            w,
            label,
        )
    }
}

proof fn lemma_buttons_layers(p: Picture, look: Look, tex: Picture, h: int)
    ensures
        screen::with_buttons(p, look, tex, h) == first_buttons(p, look, tex, h, 7),
{
    reveal_with_fuel(first_buttons, 8);
}

proof fn lemma_button(
    p: Picture,
    look: Look,
    tex: Picture,
    h: int,
    i: int,
    x: int,
    y: int,
    c: Rgba,
)
    requires
        look.opts.scale > 0,
    ensures
        ({
            let (left, top, w, label) = button(h, i);
            let s = look.opts.scale as int;
            let white = tinted(look, 255, 255, 255);
            let at = label_left(look, left, w, label);
            let q = gui::with_button(p, look, tex, left, top, w, label);
            &&& q.w == p.w && q.h == p.h
            &&& !button_covers(look, h, i, x, y) ==> q.px(x, y) == p.px(x, y)
            &&& p.inside(x, y) && text_shows(
                white,
                at,
                top * s + 6 * s,
                info::plain_line(label),
                w,
                1,
                x,
                y,
                c,
            ) ==> q.px(x, y) == c
            &&& p.inside(x, y) && in_rect(x / s, y / s, left, top, w, 20) && !label_touches(
                look,
                h,
                i,
                x,
                y,
            ) ==> q.px(x, y) == canvas::blended(
                tex.px(
                    if x / s - left < w / 2 {
                        x / s - left
                    } else {
                        tex.w - w + (x / s - left)
                    },
                    y / s - top,
                ),
                p.px(x, y),
            )
        }),
{
    let (left, top, w, label) = button(h, i);
    let s = look.opts.scale as int;
    let white = tinted(look, 255, 255, 255);
    let at = label_left(look, left, w, label);
    let spans = info::plain_line(label);
    let face = gui::with_button_face(p, tex, left, top, w, s);
    texts_leave_the_rest(face, white, at, top * s + 6 * s, spans, w, 1, x, y);
    if p.inside(x, y) && text_shows(white, at, top * s + 6 * s, spans, w, 1, x, y, c) {
        texts_are_shown(face, white, at, top * s + 6 * s, spans, w, 1, x, y, c);
    }
}

proof fn lemma_buttons_apart(
    p: Picture,
    look: Look,
    tex: Picture,
    h: int,
    n: nat,
    from: nat,
    x: int,
    y: int,
)
    requires
        look.opts.scale > 0,
        from <= n <= 7,
        buttons_apart(look, h, from as int, x, y),
    ensures
        first_buttons(p, look, tex, h, n).w == first_buttons(p, look, tex, h, from).w,
        first_buttons(p, look, tex, h, n).h == first_buttons(p, look, tex, h, from).h,
        first_buttons(p, look, tex, h, n).px(x, y) == first_buttons(p, look, tex, h, from).px(x, y),
    decreases n,
{
    if from < n {
        let m = (n - 1) as nat;
        lemma_buttons_apart(p, look, tex, h, m, from, x, y);
        assert(!button_covers(look, h, m as int, x, y));
        let before = first_buttons(p, look, tex, h, m);
        lemma_button(before, look, tex, h, m as int, x, y, canvas::clear());
    }
}

proof fn lemma_buttons_size(p: Picture, look: Look, tex: Picture, h: int, n: nat)
    requires
        look.opts.scale > 0,
        n <= 7,
    ensures
        first_buttons(p, look, tex, h, n).w == p.w,
        first_buttons(p, look, tex, h, n).h == p.h,
    decreases n,
{
    if n > 0 {
        let m = (n - 1) as nat;
        lemma_buttons_size(p, look, tex, h, m);
        let before = first_buttons(p, look, tex, h, m);
        lemma_button(before, look, tex, h, m as int, 0, 0, canvas::clear());
    }
}

/// Each button shows its own label in its middle, in white, and stays out of the rest of the screen.
pub proof fn buttons_show_their_labels(
    p: Picture,
    look: Look,
    tex: Picture,
    h: int,
    i: int,
    x: int,
    y: int,
    c: Rgba,
)
    requires
        look.opts.scale > 0,
        p.inside(x, y),
        0 <= i < 7,
        buttons_apart(look, h, i + 1, x, y),
        ({
            let (left, top, w, label) = button(h, i);
            text_shows(
                tinted(look, 255, 255, 255),
                label_left(look, left, w, label),
                (top + 6) * look.opts.scale,
                info::plain_line(label),
                w,
                1,
                x,
                y,
                c,
            )
        }),
    ensures
        screen::with_buttons(p, look, tex, h).px(x, y) == c,
{
    let (left, top, w, label) = button(h, i);
    let s = look.opts.scale as int;
    assert((top + 6) * s == top * s + 6 * s) by (nonlinear_arith);
    lemma_buttons_layers(p, look, tex, h);
    lemma_buttons_size(p, look, tex, h, i as nat);
    lemma_button(first_buttons(p, look, tex, h, i as nat), look, tex, h, i, x, y, c);
    lemma_buttons_apart(p, look, tex, h, 7, (i + 1) as nat, x, y);
}

/// The buttons leave the rest of the screen alone.
pub proof fn buttons_leave_the_rest(
    p: Picture,
    look: Look,
    tex: Picture,
    h: int,
    x: int,
    y: int,
)
    requires
        look.opts.scale > 0,
    ensures
        screen::with_buttons(p, look, tex, h).w == p.w,
        screen::with_buttons(p, look, tex, h).h == p.h,
        buttons_apart(look, h, 0, x, y) ==> screen::with_buttons(p, look, tex, h).px(x, y) == p.px(
            x,
            y,
        ),
{
    lemma_buttons_layers(p, look, tex, h);
    lemma_buttons_size(p, look, tex, h, 7);
    if buttons_apart(look, h, 0, x, y) {
        lemma_buttons_apart(p, look, tex, h, 7, 0, x, y);
    }
}

// ---- the ground of a screen ----

/// The title of a screen covers the place.
pub open spec fn heading_touches(look: Look, x: int, y: int) -> bool {
    centered_touches(tinted(look, 255, 255, 255), "Play Multiplayer"@, 20, x, y)
}

/// A line in the middle of the screen covers the place.
pub open spec fn centered_touches(look: Look, t: Seq<char>, top: int, x: int, y: int) -> bool {
    let s = look.opts.scale as int;
    let spans = info::plain_line(t);
    text_touches(
        look,
        213 * s - layout::measured(spans, look.font, s) / 2,
        top * s,
        spans,
        427,
        1,
        x,
        y,
    )
}

/// A line in the middle of the screen shows a character in this colour.
pub open spec fn centered_shows(
    look: Look,
    t: Seq<char>,
    top: int,
    x: int,
    y: int,
    c: Rgba,
) -> bool {
    let s = look.opts.scale as int;
    let spans = info::plain_line(t);
    text_shows(
        look,
        213 * s - layout::measured(spans, look.font, s) / 2,
        top * s,
        spans,
        427,
        1,
        x,
        y,
        c,
    )
}

proof fn lemma_centered(p: Picture, look: Look, t: Seq<char>, top: int, x: int, y: int, c: Rgba)
    ensures
        ({
            let q = screen::with_centered(p, look, t, top * look.opts.scale);
            &&& q.w == p.w && q.h == p.h
            &&& !centered_touches(look, t, top, x, y) ==> q.px(x, y) == p.px(x, y)
            &&& p.inside(x, y) && centered_shows(look, t, top, x, y, c) ==> q.px(x, y) == c
        }),
{
    let s = look.opts.scale as int;
    let spans = info::plain_line(t);
    let left = 213 * s - layout::measured(spans, look.font, s) / 2;
    texts_leave_the_rest(p, look, left, top * s, spans, 427, 1, x, y);
    if p.inside(x, y) && centered_shows(look, t, top, x, y, c) {
        texts_are_shown(p, look, left, top * s, spans, 427, 1, x, y, c);
    }
}

/// The ground of a screen: its title in white at the top, a quarter of the dirt around the list and
/// an eighth in it.
#[verifier::rlimit(60)]
pub proof fn screens_have_their_ground(
    look: Look,
    dirt: Picture,
    h: int,
    x: int,
    y: int,
    c: Rgba,
)
    requires
        look.opts.scale > 0,
        h >= 240,
        dirt.w > 0,
        dirt.h > 0,
        0 <= x < 427 * look.opts.scale,
        0 <= y < h * look.opts.scale,
    ensures
        ({
            let s = look.opts.scale as int;
            let ground = screen::screen_ground(look, dirt, h);
            let d = dirt.px((x / s / 2) % dirt.w, (y / s / 2) % dirt.h);
            let row = y / s;
            let apart = !heading_touches(look, x, y);
            &&& ground.w == 427 * s && ground.h == h * s
            &&& centered_shows(tinted(look, 255, 255, 255), "Play Multiplayer"@, 20, x, y, c)
                ==> ground.px(x, y) == c
            &&& apart && (row < 32 || row >= h - 64) ==> ground.px(x, y) == canvas::solid(
                (d.r / 4) as u8,
                (d.g / 4) as u8,
                (d.b / 4) as u8,
            )
            &&& apart && 36 <= row < h - 68 ==> ground.px(x, y) == canvas::solid(
                (d.r / 8) as u8,
                (d.g / 8) as u8,
                (d.b / 8) as u8,
            )
        }),
{
    let s = look.opts.scale as int;
    let white = tinted(look, 255, 255, 255);
    let empty = canvas::plain(427 * s, h * s, canvas::clear());
    let all = gui::with_dirt(empty, dirt, 0, 0, 427, h, s, 4);
    let list = gui::with_dirt(all, dirt, 0, 32, 427, h - 96, s, 8);
    let upper = gui::with_edge(list, 427, 32, 4, s, true);
    let lower = gui::with_edge(upper, 427, h - 64, 4, s, false);
    assert(x / s < 427 && y / s < h && x / s >= 0 && y / s >= 0) by (nonlinear_arith)
        requires
            0 <= x < 427 * s,
            0 <= y < h * s,
            s > 0,
    ;
    lemma_centered(lower, white, "Play Multiplayer"@, 20, x, y, c);
    assert(screen::screen_ground(look, dirt, h) == screen::with_centered(
        lower,
        white,
        "Play Multiplayer"@,
        20 * s,
    ));
}

// ---- lists ----

/// The top of the entry number `i`.
pub open spec fn entry_top(i: int) -> int {
    36 + 36 * i
}

/// No entry from this number on covers the place.
pub open spec fn entries_apart(
    look: Look,
    assets: AssetsView,
    entries: Seq<EntryView>,
    from: int,
    x: int,
    y: int,
) -> bool {
    forall|m: int|
        from <= m < entries.len() ==> entry_apart(
            look,
            assets,
            entries[m].name,
            entries[m].result,
            #[trigger] entry_top(m),
            0,
            x,
            y,
        )
}

proof fn lemma_entries(
    p: Picture,
    look: Look,
    assets: AssetsView,
    entries: Seq<EntryView>,
    n: nat,
    from: nat,
    x: int,
    y: int,
)
    requires
        look.opts.scale > 0,
        from <= n <= entries.len(),
        entries_apart(look, assets, entries, from as int, x, y),
    ensures
        screen::with_entries(p, look, assets, entries, n).px(x, y) == screen::with_entries(
            p,
            look,
            assets,
            entries,
            from,
        ).px(x, y),
    decreases n,
{
    if from < n {
        let m = (n - 1) as nat;
        lemma_entries(p, look, assets, entries, m, from, x, y);
        let e = entries[m as int];
        let before = screen::with_entries(p, look, assets, entries, m);
        assert(entry_apart(look, assets, e.name, e.result, entry_top(m as int), 0, x, y));
        entries_leave_the_rest(
            before,
            look,
            assets,
            e.name,
            e.result,
            entry_top(m as int),
            x,
            y,
        );
    }
}

proof fn lemma_entries_size(
    p: Picture,
    look: Look,
    assets: AssetsView,
    entries: Seq<EntryView>,
    n: nat,
)
    requires
        look.opts.scale > 0,
        n <= entries.len(),
    ensures
        screen::with_entries(p, look, assets, entries, n).w == p.w,
        screen::with_entries(p, look, assets, entries, n).h == p.h,
    decreases n,
{
    if n > 0 {
        let m = (n - 1) as nat;
        lemma_entries_size(p, look, assets, entries, m);
        let e = entries[m as int];
        let before = screen::with_entries(p, look, assets, entries, m);
        entries_leave_the_rest(
            before,
            look,
            assets,
            e.name,
            e.result,
            entry_top(m as int),
            0,
            0,
        );
    }
}

/// The height of the screen with `n` servers, in GUI pixels: 36 for each of them and some more, but
/// at least 240.
pub open spec fn list_screen_height(n: int) -> int {
    if n >= 4 {
        36 * n + 104
    } else {
        240
    }
}

/// The screen with several servers is 427 GUI pixels wide and grows with the servers.
pub proof fn lists_grow_with_their_entries(
    entries: Seq<EntryView>,
    assets: AssetsView,
    scale: u32,
    target: TargetVersion,
    policy: OldColorPolicy,
)
    requires
        assets.dirt.w > 0,
        assets.dirt.h > 0,
    ensures
        ({
            let pic = screen::list_picture(entries, assets, scale, target, policy);
            let s = if scale > 1 {
                scale as int
            } else {
                1
            };
            pic.w == 427 * s && pic.h == list_screen_height(entries.len() as int) * s
        }),
{
    let look = list_look(assets, scale, target, policy, (0xAA, 0xAA, 0xAA));
    let s = look.opts.scale as int;
    let h = list_screen_height(entries.len() as int);
    assert(screen::screen_height(entries.len() as int) == h);
    assert(h * s >= 240) by (nonlinear_arith)
        requires
            h >= 240,
            s >= 1,
    ;
    screens_have_their_ground(look, assets.dirt, h, 0, 0, canvas::clear());
    let ground = screen::screen_ground(look, assets.dirt, h);
    lemma_entries_size(ground, look, assets, entries, entries.len());
    let list = screen::with_entries(ground, look, assets, entries, entries.len());
    buttons_leave_the_rest(list, look, assets.button, h, 0, 0);
}

#[verifier::rlimit(60)]
proof fn lemma_row(
    ground: Picture,
    look: Look,
    assets: AssetsView,
    entries: Seq<EntryView>,
    i: int,
    n: int,
    x: int,
    y: int,
    c: Rgba,
)
    requires
        look.opts.scale > 0,
        ground.inside(x, y),
        0 <= i < entries.len(),
        0 <= n <= 4,
        entry_shows(look, assets, entries[i].name, entries[i].result, 36 + 36 * i, n, x, y, c),
        entries_apart(look, assets, entries, i + 1, x, y),
    ensures
        ({
            let list = screen::with_entries(ground, look, assets, entries, entries.len());
            list.px(x, y) == c && list.w == ground.w && list.h == ground.h
        }),
{
    let before = screen::with_entries(ground, look, assets, entries, i as nat);
    lemma_entries_size(ground, look, assets, entries, i as nat);
    entries_show_their_parts(
        before,
        look,
        assets,
        entries[i].name,
        entries[i].result,
        36 + 36 * i,
        n,
        x,
        y,
        c,
    );
    lemma_entries(ground, look, assets, entries, entries.len(), (i + 1) as nat, x, y);
    lemma_entries_size(ground, look, assets, entries, entries.len());
}

/// Each row of the screen with several servers shows its own server: the entry number `i`, 36 + 36 `i`
/// GUI pixels down, with its own name, description, count, bars and icon. Where one of these has an
/// opaque pixel, and no later part, row or button covers the place, that pixel is seen.
#[verifier::rlimit(60)]
pub proof fn lists_show_their_entries(
    entries: Seq<EntryView>,
    assets: AssetsView,
    scale: u32,
    target: TargetVersion,
    policy: OldColorPolicy,
    i: int,
    n: int,
    x: int,
    y: int,
    c: Rgba,
)
    requires
        assets.dirt.w > 0,
        assets.dirt.h > 0,
        screen::list_picture(entries, assets, scale, target, policy).inside(x, y),
        0 <= i < entries.len(),
        0 <= n <= 4,
        c.a == 255,
        ({
            let look = list_look(assets, scale, target, policy, (0xAA, 0xAA, 0xAA));
            let h = list_screen_height(entries.len() as int);
            &&& entry_shows(
                look,
                assets,
                entries[i].name,
                entries[i].result,
                36 + 36 * i,
                n,
                x,
                y,
                c,
            )
            &&& entries_apart(look, assets, entries, i + 1, x, y)
            &&& buttons_apart(look, h, 0, x, y)
        }),
    ensures
        screen::list_picture(entries, assets, scale, target, policy).px(x, y) == c,
{
    let look = list_look(assets, scale, target, policy, (0xAA, 0xAA, 0xAA));
    let s = look.opts.scale as int;
    let h = list_screen_height(entries.len() as int);
    assert(screen::screen_height(entries.len() as int) == h);
    lists_grow_with_their_entries(entries, assets, scale, target, policy);
    screens_have_their_ground(look, assets.dirt, h, x, y, c);
    let ground = screen::screen_ground(look, assets.dirt, h);
    lemma_row(ground, look, assets, entries, i, n, x, y, c);
    let list = screen::with_entries(ground, look, assets, entries, entries.len());
    buttons_leave_the_rest(list, look, assets.button, h, x, y);
    let all = screen::with_buttons(list, look, assets.button, h);
    lemma_opaque_stays(all, card::checker_cell(s), x, y);
}

// ---- the screen with one server ----

/// The screen with one server shows it: its title, its description, the count of its players, its
/// signal bars and its icon, 36 GUI pixels down; and below it that servers nearby are looked for.
#[verifier::rlimit(60)]
pub proof fn selections_show_their_server(
    r: ResultView,
    assets: AssetsView,
    scale: u32,
    target: TargetVersion,
    policy: OldColorPolicy,
    title: Option<Seq<char>>,
    n: int,
    x: int,
    y: int,
    c: Rgba,
)
    requires
        assets.dirt.w > 0,
        assets.dirt.h > 0,
        screen::select_picture(r, assets, scale, target, policy, title).inside(x, y),
        0 <= n <= 4,
        c.a == 255,
    ensures
        ({
            let look = list_look(assets, scale, target, policy, (0xAA, 0xAA, 0xAA));
            let white = list_look(assets, scale, target, policy, (255, 255, 255));
            let s = look.opts.scale as int;
            let pic = screen::select_picture(r, assets, scale, target, policy, title);
            let name = info::title_of(r, title);
            let search = "Scanning for games on your local network"@;
            let free = buttons_apart(look, 240, 0, x, y);
            let no_dots = !centered_touches(look, "o O o"@, 95, x, y);
            let no_search = !centered_touches(white, search, 86, x, y);
            let no_entry = entry_apart(look, assets, name, Some(r), 36, 0, x, y);
            &&& pic.w == 427 * s && pic.h == 240 * s
            &&& free && no_dots && no_search && entry_shows(
                look,
                assets,
                name,
                Some(r),
                36,
                n,
                x,
                y,
                c,
            ) ==> pic.px(x, y) == c
            &&& free && no_dots && centered_shows(white, search, 86, x, y, c) ==> pic.px(x, y) == c
            &&& free && centered_shows(look, "o O o"@, 95, x, y, c) ==> pic.px(x, y) == c
            &&& free && no_dots && no_search && no_entry && in_rect(
                x,
                y,
                62 * s,
                35 * s,
                302 * s,
                34 * s,
            ) ==> pic.px(x, y) == canvas::solid(0, 0, 0)
            &&& free && no_dots && no_search && no_entry && in_rect(
                x,
                y,
                61 * s,
                34 * s,
                304 * s,
                36 * s,
            ) && !in_rect(x, y, 62 * s, 35 * s, 302 * s, 34 * s) ==> pic.px(x, y)
                == canvas::solid(255, 255, 255)
        }),
{
    let look = list_look(assets, scale, target, policy, (0xAA, 0xAA, 0xAA));
    let white = list_look(assets, scale, target, policy, (255, 255, 255));
    let s = look.opts.scale as int;
    let name = info::title_of(r, title);
    let search = "Scanning for games on your local network"@;
    assert(tinted(look, 255, 255, 255) == white);
    assert(tinted(look, 0xAA, 0xAA, 0xAA) == look);
    let ground = screen::screen_ground(look, assets.dirt, 240);
    screens_have_their_ground(look, assets.dirt, 240, 0, 0, c);
    let frame = ground.filled(61 * s, 34 * s, 304 * s, 36 * s, canvas::solid(255, 255, 255));
    let inner = frame.filled(62 * s, 35 * s, 302 * s, 34 * s, canvas::solid(0, 0, 0));
    let entry = screen::with_entry(inner, look, assets, 63, 36, name, Some(r));
    entries_leave_the_rest(inner, look, assets, name, Some(r), 36, x, y);
    let scan = screen::with_centered(entry, white, search, 86 * s);
    lemma_centered(entry, white, search, 86, x, y, c);
    let dots = screen::with_centered(scan, look, "o O o"@, 95 * s);
    lemma_centered(scan, look, "o O o"@, 95, x, y, c);
    let all = screen::with_buttons(dots, look, assets.button, 240);
    buttons_leave_the_rest(dots, look, assets.button, 240, x, y);
    let pic = screen::select_picture(r, assets, scale, target, policy, title);
    assert(pic == canvas::over_checker(all, card::checker_cell(s)));
    assert(all.inside(x, y));
    if entry_shows(look, assets, name, Some(r), 36, n, x, y, c) {
        entries_show_their_parts(inner, look, assets, name, Some(r), 36, n, x, y, c);
    }
    if all.px(x, y).a == 255 {
        lemma_opaque_stays(all, card::checker_cell(s), x, y);
    }
}

/// The box of a card is as wide as the widest of its lines, but at least eight and at most two
/// hundred GUI pixels; it holds the first five players and is nine high for each of them.
pub proof fn boxes_hold_their_players(r: ResultView, font: VanillaFont, scale: int, k: int)
    requires
        r.status.players is Some,
        0 <= k < card::sample_lines(r.status).len(),
    ensures
        ({
            let lines = card::sample_lines(r.status);
            let n = r.status.players->0.sample.len();
            let w = card::content_width(lines, font, scale);
            let own = (layout::measured(lines[k], font, scale) + scale - 1) / scale;
            &&& lines.len() == (if n < 5 {
                n
            } else {
                5
            })
            &&& lines[k] == component::spans_of(
                component::text_view(r.status.players->0.sample[k].0),
            )
            &&& 8 <= w <= 200
            &&& own <= w || w == 200
            &&& w > 8 ==> w == 200 || exists|j: int|
                0 <= j < lines.len() && w == (layout::measured(#[trigger] lines[j], font, scale)
                    + scale - 1) / scale
            &&& card::box_height(lines.len() as int) == (if 9 * lines.len() + 6 < 48 {
                9 * lines.len() + 6
            } else {
                48
            })
        }),
{
    lemma_widest(card::sample_lines(r.status), font, scale, k);
}

proof fn lemma_widest(lines: Seq<Seq<SpanView>>, font: VanillaFont, scale: int, k: int)
    requires
        0 <= k < lines.len(),
    ensures
        card::gui_width(lines[k], font, scale) <= card::widest(lines, font, scale),
        card::widest(lines, font, scale) > 0 ==> exists|j: int|
            0 <= j < lines.len() && card::widest(lines, font, scale) == (layout::measured(
                #[trigger] lines[j],
                font,
                scale,
            ) + scale - 1) / scale,
    decreases lines.len(),
{
    let before = lines.drop_last();
    let m = card::widest(before, font, scale);
    if before.len() > 0 {
        lemma_widest(
            before,
            font,
            scale,
            if k < before.len() {
                k
            } else {
                0
            },
        );
        if m > 0 {
            let j = choose|j: int|
                0 <= j < before.len() && m == (layout::measured(#[trigger] before[j], font, scale)
                    + scale - 1) / scale;
            assert(lines[j] == before[j]);
        }
    }
    assert(lines[lines.len() - 1] == lines.last());
}

/// Text without line feeds and right-to-left characters measures as wide as its characters together,
/// as long as one line can be that wide.
pub proof fn texts_measure_their_characters(spans: Seq<SpanView>, font: VanillaFont, scale: int)
    requires
        scale >= 1,
        forall|k: int| 0 <= k < spans.len() ==> !(#[trigger] spans[k]).text.contains('\n'),
        forall|k: int|
            0 <= k < component::texts(spans).len() ==> !bidi::is_rtl(
                #[trigger] component::texts(spans)[k],
            ),
        layout::total_width(layout::finished(layout::flow(spans, font, u32::MAX as int, scale)))
            <= u32::MAX,
    ensures
        layout::measured(spans, font, scale) == layout::total_width(
            layout::finished(layout::flow(spans, font, u32::MAX as int, scale)),
        ),
{
    let max = u32::MAX as int;
    let lines = layout::finished(layout::flow(spans, font, max, scale));
    assert(layout::limit(max, scale) == max) by (nonlinear_arith)
        requires
            max == u32::MAX,
            scale >= 1,
            layout::limit(max, scale) == (if max * scale > max {
                max
            } else {
                max * scale
            }),
    ;
    layout::text_that_fits_stays_on_one_line(spans, font, max, scale);
    let seen = layout::laid_out(spans, font, max, 1, scale);
    assert(seen.len() == lines.len());
    if lines.len() > 0 {
        layout::plain_lines_have_no_rtl(spans, font, max, scale, 0);
        layout::first_lines_are_seen(spans, font, max, 1, scale, 0);
        assert(lines.drop_last() =~= Seq::empty());
        assert(layout::total_width(lines.drop_last()) == 0);
    }
}

/// The height of the picture of a description: nine GUI pixels for each line, three for accents, and
/// the space around.
pub proof fn descriptions_are_as_high_as_their_lines(
    spans: Seq<SpanView>,
    font: VanillaFont,
    opts: RenderOptions,
)
    ensures
        ({
            let n = layout::laid_out(
                spans,
                font,
                opts.max_width as int,
                opts.max_lines as int,
                opts.scale as int,
            ).len() as int;
            let lines = if n > 1 {
                n
            } else {
                1
            };
            motd::motd_picture(spans, font, opts).h == canvas::at_least(
                (2 * opts.padding + 9 * lines + 3) * opts.scale,
                1,
            )
        }),
{
    let look = Look { font, opts, fg: opts.default_color };
    let at = opts.padding * opts.scale;
    let ground = motd::ground(
        motd::motd_width(opts),
        motd::motd_height(spans, font, opts),
        opts.background,
    );
    texts_leave_the_rest(
        ground,
        look,
        at,
        at,
        spans,
        opts.max_width as int,
        opts.max_lines as int,
        0,
        0,
    );
}

/// Along its upper and its lower edge a list is black, and less so with every row from there.
pub proof fn lists_have_dark_edges(look: Look, dirt: Picture, h: int, x: int, y: int)
    requires
        look.opts.scale > 0,
        h >= 240,
        dirt.w > 0,
        dirt.h > 0,
        0 <= x < 427 * look.opts.scale,
        0 <= y < h * look.opts.scale,
        !heading_touches(look, x, y),
        y / (look.opts.scale as int) == 32 || y / (look.opts.scale as int) == h - 65,
    ensures
        screen::screen_ground(look, dirt, h).px(x, y) == canvas::solid(0, 0, 0),
        gui::fading(0, 4).a == 255 && gui::fading(1, 4).a == 192 && gui::fading(2, 4).a == 128
            && gui::fading(3, 4).a == 64,
{
    let s = look.opts.scale as int;
    let white = tinted(look, 255, 255, 255);
    let empty = canvas::plain(427 * s, h * s, canvas::clear());
    let all = gui::with_dirt(empty, dirt, 0, 0, 427, h, s, 4);
    let list = gui::with_dirt(all, dirt, 0, 32, 427, h - 96, s, 8);
    let upper = gui::with_edge(list, 427, 32, 4, s, true);
    let lower = gui::with_edge(upper, 427, h - 64, 4, s, false);
    lemma_centered(lower, white, "Play Multiplayer"@, 20, x, y, canvas::clear());
    assert(screen::screen_ground(look, dirt, h) == screen::with_centered(
        lower,
        white,
        "Play Multiplayer"@,
        20 * s,
    ));
}

/// Each button shows its face where its label does not: the left end of the button's picture on its
/// left half, the right end on its right half.
pub proof fn buttons_show_their_faces(
    p: Picture,
    look: Look,
    tex: Picture,
    h: int,
    i: int,
    x: int,
    y: int,
)
    requires
        look.opts.scale > 0,
        p.inside(x, y),
        0 <= i < 7,
        buttons_apart(look, h, i + 1, x, y),
        forall|k: int| 0 <= k < i ==> !#[trigger] button_covers(look, h, k, x, y),
        !label_touches(look, h, i, x, y),
        ({
            let (left, top, w, label) = button(h, i);
            let s = look.opts.scale as int;
            in_rect(x / s, y / s, left, top, w, 20)
        }),
    ensures
        ({
            let (left, top, w, label) = button(h, i);
            let s = look.opts.scale as int;
            let col = x / s - left;
            screen::with_buttons(p, look, tex, h).px(x, y) == canvas::blended(
                tex.px(
                    if col < w / 2 {
                        col
                    } else {
                        tex.w - w + col
                    },
                    y / s - top,
                ),
                p.px(x, y),
            )
        }),
{
    lemma_buttons_layers(p, look, tex, h);
    lemma_buttons_size(p, look, tex, h, i as nat);
    lemma_first_apart(p, look, tex, h, i as nat, x, y);
    let before = first_buttons(p, look, tex, h, i as nat);
    lemma_button(before, look, tex, h, i, x, y, canvas::clear());
    lemma_buttons_apart(p, look, tex, h, 7, (i + 1) as nat, x, y);
}

proof fn lemma_first_apart(
    p: Picture,
    look: Look,
    tex: Picture,
    h: int,
    n: nat,
    x: int,
    y: int,
)
    requires
        look.opts.scale > 0,
        n <= 7,
        forall|k: int| 0 <= k < n ==> !#[trigger] button_covers(look, h, k, x, y),
    ensures
        first_buttons(p, look, tex, h, n).px(x, y) == p.px(x, y),
    decreases n,
{
    if n > 0 {
        let m = (n - 1) as nat;
        lemma_first_apart(p, look, tex, h, m, x, y);
        assert(!button_covers(look, h, m as int, x, y));
        let before = first_buttons(p, look, tex, h, m);
        lemma_button(before, look, tex, h, m as int, x, y, canvas::clear());
    }
}

} // verus!
