//! The game's screen with a list of servers.
//!
//! The screen is 427 GUI pixels wide. The list starts 32 below the top and ends 64 above the bottom;
//! an entry is 36 high and 305 wide.

use vstd::prelude::*;
use crate::minecraft::component;
use crate::minecraft::protocol::{PingResult, ResultView};
use crate::minecraft::render::canvas;
use crate::minecraft::render::canvas::{blit_sprite, composite_over_checker, Canvas, Picture, Rgba};
use crate::minecraft::render::card;
use crate::minecraft::render::card::{scaled, text_look, title_room};
use crate::minecraft::render::draw;
use crate::minecraft::render::draw::{draw_block_dev, draw_right_dev, Ctx, Look};
use crate::minecraft::render::gui;
use crate::minecraft::render::gui::{
    draw_button, draw_icon, fill_dirt_region, load_icon, ping_sprite, shadow_edge, Assets, AssetsView,
};
use crate::minecraft::render::info;
use crate::minecraft::render::info::{line_spans, player_count_spans, title_text};
use crate::minecraft::render::layout;
use crate::minecraft::render::layout::{is_short, measure_dev, MAX_CHARS};
use crate::minecraft::render::motd;
use crate::minecraft::render::motd::encode_png;
use crate::minecraft::render::options::{
    OldColorPolicy, ScreenOptions, TargetVersion, MAX_SCALE, MOTD_WIDTH,
};
use crate::minecraft::text;

verus! {

/// The width of the screen.
pub const SCREEN_W: u32 = 427;

/// The middle of the screen.
pub const MIDDLE: u32 = 213;

/// Where the list starts.
pub const LIST_TOP: u32 = 32;

/// The distance from the end of the list to the bottom.
pub const LIST_FOOTER: u32 = 64;

/// The width of an entry.
pub const ROW_W: u32 = 305;

/// The height of an entry.
pub const ITEM_H: u32 = 36;

/// Where the entries start.
pub const ROW_LEFT: u32 = 63;

/// An entry of a list: its name, and the outcome of the ping, if the server could be reached.
pub struct ListEntry {
    pub name: String,
    pub result: Option<PingResult>,
}

/// What a [`ListEntry`] holds.
pub struct EntryView {
    pub name: Seq<char>,
    pub result: Option<ResultView>,
}

/// What an optional outcome holds.
pub open spec fn opt_result(r: Option<PingResult>) -> Option<ResultView> {
    match r {
        Some(x) => Some(x.model()),
        None => None,
    }
}

impl ListEntry {
    /// What the entry holds.
    pub open spec fn model(self) -> EntryView {
        EntryView { name: self.name@, result: opt_result(self.result) }
    }
}

/// What each entry holds.
pub open spec fn entry_views(list: Seq<ListEntry>) -> Seq<EntryView> {
    Seq::new(list.len(), |i: int| list[i].model())
}

/// The gray of the list.
pub open spec fn list_gray(look: Look) -> Look {
    card::in_color(look, 0xAA, 0xAA, 0xAA)
}

/// The texts of an entry can be drawn.
pub open spec fn entry_ok(name: Seq<char>, r: Option<ResultView>) -> bool {
    &&& name.len() <= MAX_CHARS
    &&& r matches Some(x) ==> {
        &&& component::colors_ok(x.status.description)
        &&& layout::char_count(component::spans_of(x.status.description)) <= MAX_CHARS
        &&& layout::char_count(info::player_count(x.status)) <= MAX_CHARS
    }
}

/// Whether the texts of an entry can be drawn.
fn entry_is_ok(name: &str, r: &Option<PingResult>) -> (ok: bool)
    ensures
        ok == entry_ok(name@, opt_result(*r)),
{
    let v = text::chars_of(name);
    if v.len() > MAX_CHARS {
        return false;
    }
    match r {
        Some(x) => result_is_ok(x),
        None => true,
    }
}

/// Whether the description of a server and the count of its players can be drawn.
fn result_is_ok(x: &PingResult) -> (ok: bool)
    ensures
        ok == entry_ok(Seq::empty(), Some(x.model())),
{
    if !x.status.description.colors_are_known() {
        return false;
    }
    let motd = x.status.description.to_spans();
    let count = player_count_spans(x);
    is_short(motd.as_slice()) && is_short(count.as_slice())
}

/// A picture with an entry at the GUI pixel (`left`, `top`): icon, signal bars, count, name and
/// description. Of a server that cannot be reached it says so, in red.
pub open spec fn with_entry(
    p: Picture,
    look: Look,
    assets: AssetsView,
    left: int,
    top: int,
    name: Seq<char>,
    r: Option<ResultView>,
) -> Picture {
    let s = look.opts.scale as int;
    let x = (left + 35) * s;
    let right = left + ROW_W;
    let count_right = (right - 17) * s;
    let icon = gui::with_icon(
        p,
        match r {
            Some(v) => gui::icon_of(v.status),
            None => None,
        },
        left * s,
        top * s,
        32 * s,
    );
    let bars = icon.stamped(
        gui::sprite_for(
            assets,
            match r {
                Some(v) => v.latency,
                None => None,
            },
        ),
        (right - 15) * s,
        top * s,
        s,
    );
    let counted = match r {
        Some(v) => draw::with_right(
            bars,
            list_gray(look),
            count_right,
            (top + 1) * s,
            info::player_count(v.status),
        ),
        None => bars,
    };
    let named = draw::with_block(
        counted,
        card::in_color(look, 255, 255, 255),
        x,
        (top + 1) * s,
        info::plain_line(name),
        card::title_width(
            count_right,
            match r {
                Some(v) => layout::measured(info::player_count(v.status), look.font, s),
                None => 0,
            },
            x,
            s,
        ),
        1,
    );
    match r {
        Some(v) => draw::with_block(
            named,
            list_gray(look),
            x,
            (top + 12) * s,
            component::spans_of(v.status.description),
            MOTD_WIDTH as int,
            2,
        ),
        None => draw::with_block(
            named,
            card::in_color(look, 255, 85, 85),
            x,
            (top + 12) * s,
            info::plain_line("无法连接到服务器"@),
            MOTD_WIDTH as int,
            1,
        ),
    }
}

/// A GUI length in pixels fits a picture's side.
proof fn lemma_length(g: int, scale: int, most: int)
    requires
        0 <= g <= most,
        0 <= scale,
    ensures
        0 <= g * scale <= most * scale,
{
    assert(0 <= g * scale <= most * scale) by (nonlinear_arith)
        requires
            0 <= g <= most,
            0 <= scale,
    ;
}

/// A GUI length in pixels.
fn length(g: u32, scale: u32, most: u32) -> (r: u32)
    requires
        g <= most,
        most * scale <= canvas::MAX_SIDE,
    ensures
        r == g * scale,
        r <= canvas::MAX_SIDE,
{
    proof {
        lemma_length(g as int, scale as int, most as int);
    }
    g * scale
}

/// Draws an entry at the GUI pixel (`left`, `top`) of a screen of the given height.
fn draw_vanilla_entry(
    img: &mut Canvas,
    ctx: &Ctx,
    assets: &Assets,
    left: u32,
    top: u32,
    name: &str,
    result: Option<&PingResult>,
    height: u32,
)
    requires
        old(img).wf(),
        ctx.wf(),
        0 < ctx.opts.scale,
        assets.wf(),
        *ctx.font == assets.font,
        left <= 100,
        top + ITEM_H <= height,
        height * ctx.opts.scale <= canvas::MAX_SIDE,
        entry_ok(
            name@,
            match result {
                Some(x) => Some(x.model()),
                None => None,
            },
        ),
    ensures
        final(img).wf(),
        final(img)@.w == old(img)@.w,
        final(img)@.h == old(img)@.h,
        final(img)@ == with_entry(
            old(img)@,
            ctx.look(),
            assets.model(),
            left as int,
            top as int,
            name@,
            match result {
                Some(x) => Some(x.model()),
                None => None,
            },
        ),
{
    let s: u32 = ctx.opts.scale;
    let gray = Ctx { font: ctx.font, opts: ctx.opts, fg: (0xAA, 0xAA, 0xAA) };
    let white = Ctx { font: ctx.font, opts: ctx.opts, fg: (255, 255, 255) };
    let x: i64 = scaled(left + 35, s) as i64;
    let y: u32 = length(top, s, height);
    let y1: i64 = length(top + 1, s, height) as i64;
    let y12: i64 = length(top + 12, s, height) as i64;
    let right: u32 = left + ROW_W;
    let icon = match result {
        Some(r) => load_icon(&r.status),
        None => None,
    };
    draw_icon(img, &icon, scaled(left, s), y, scaled(32, s));
    let latency: Option<u128> = match result {
        Some(r) => r.latency,
        None => None,
    };
    let sprite = ping_sprite(assets, latency);
    blit_sprite(img, sprite, scaled(right - 15, s) as i64, y as i64, s);
    let count_right: i64 = scaled(right - 17, s) as i64;
    let count_w: u64 = match result {
        Some(r) => {
            let count = player_count_spans(r);
            proof {
                if let Some(p) = r.model().status.players {
                    info::lemma_plain_line(
                        text::signed_decimal(p.online as int) + "/"@ + text::signed_decimal(
                            p.max as int,
                        ),
                    );
                }
            }
            let w: u64 = measure_dev(ctx.font, count.as_slice(), s);
            draw_right_dev(img, &gray, count_right, y1, count.as_slice());
            w
        },
        None => 0,
    };
    proof {
        let g = right - 17;
        let k = left + 35;
        assert(g * s - k * s <= 2000 * s) by (nonlinear_arith)
            requires
                g - k <= 2000,
                0 < s,
        ;
        info::lemma_plain_line(name@);
    }
    let name_max: u32 = title_room(count_right, count_w, x, s);
    let name_spans = line_spans(name);
    draw_block_dev(img, &white, x, y1, name_spans.as_slice(), name_max, 1);
    match result {
        Some(r) => {
            let spans = r.status.description.to_spans();
            draw_block_dev(img, &gray, x, y12, spans.as_slice(), MOTD_WIDTH, 2);
        },
        None => {
            let err = line_spans("无法连接到服务器");
            proof {
                reveal_strlit("无法连接到服务器");
                info::lemma_plain_line("无法连接到服务器"@);
            }
            let red = Ctx { font: ctx.font, opts: ctx.opts, fg: (255, 85, 85) };
            draw_block_dev(img, &red, x, y12, err.as_slice(), MOTD_WIDTH, 1);
        },
    }
}

// ---- the screen around the entries ----

/// A picture with a line of text in the middle.
pub open spec fn with_centered(p: Picture, look: Look, t: Seq<char>, y: int) -> Picture {
    let s = look.opts.scale as int;
    let spans = info::plain_line(t);
    draw::with_block(
        p,
        look,
        MIDDLE * s - layout::measured(spans, look.font, s) / 2,
        y,
        spans,
        SCREEN_W as int,
        1,
    )
}

/// Draws a line of text in the middle.
fn draw_centered(img: &mut Canvas, ctx: &Ctx, t: &str, y: i64)
    requires
        old(img).wf(),
        ctx.wf(),
        t@.len() <= MAX_CHARS,
        0 <= y <= canvas::MAX_SIDE,
    ensures
        final(img).wf(),
        final(img)@.w == old(img)@.w,
        final(img)@.h == old(img)@.h,
        final(img)@ == with_centered(old(img)@, ctx.look(), t@, y as int),
{
    let s: u32 = ctx.opts.scale;
    let spans = line_spans(t);
    proof {
        info::lemma_plain_line(t@);
    }
    let w: u64 = measure_dev(ctx.font, spans.as_slice(), s);
    let x: i64 = scaled(MIDDLE, s) as i64 - (w / 2) as i64;
    draw_block_dev(img, ctx, x, y, spans.as_slice(), SCREEN_W, 1);
}

/// A picture with the two rows of buttons at the bottom of a screen of the height `h`.
pub open spec fn with_buttons(p: Picture, look: Look, tex: Picture, h: int) -> Picture {
    let p1 = gui::with_button(p, look, tex, 59, h - 52, 100, "Join Server"@);
    let p2 = gui::with_button(p1, look, tex, 163, h - 52, 100, "Direct Connection"@);
    let p3 = gui::with_button(p2, look, tex, 267, h - 52, 100, "Add Server"@);
    let p4 = gui::with_button(p3, look, tex, 59, h - 28, 70, "Edit"@);
    let p5 = gui::with_button(p4, look, tex, 139, h - 28, 70, "Delete"@);
    let p6 = gui::with_button(p5, look, tex, 217, h - 28, 70, "Refresh"@);
    gui::with_button(p6, look, tex, 293, h - 28, 75, "Cancel"@)
}

/// Draws the two rows of buttons at the bottom.
fn draw_footer_buttons(img: &mut Canvas, ctx: &Ctx, tex: &Canvas, h: u32)
    requires
        old(img).wf(),
        ctx.wf(),
        0 < ctx.opts.scale,
        tex.wf(),
        tex@.w >= 50,
        tex@.h >= 20,
        100 <= h <= canvas::MAX_SIDE,
    ensures
        final(img).wf(),
        final(img)@.w == old(img)@.w,
        final(img)@.h == old(img)@.h,
        final(img)@ == with_buttons(old(img)@, ctx.look(), tex@, h as int),
{
    let y_top: u32 = h - 52;
    let y_bot: u32 = h - 28;
    proof {
        reveal_strlit("Join Server");
        reveal_strlit("Direct Connection");
        reveal_strlit("Add Server");
        reveal_strlit("Edit");
        reveal_strlit("Delete");
        reveal_strlit("Refresh");
        reveal_strlit("Cancel");
    }
    draw_button(img, ctx, tex, 59, y_top, 100, "Join Server");
    draw_button(img, ctx, tex, 163, y_top, 100, "Direct Connection");
    draw_button(img, ctx, tex, 267, y_top, 100, "Add Server");
    draw_button(img, ctx, tex, 59, y_bot, 70, "Edit");
    draw_button(img, ctx, tex, 139, y_bot, 70, "Delete");
    draw_button(img, ctx, tex, 217, y_bot, 70, "Refresh");
    draw_button(img, ctx, tex, 293, y_bot, 75, "Cancel");
}

/// The ground of a screen of the height `h`: dirt, darker in the list, a shadow along its upper and
/// its lower edge, and the title.
pub open spec fn screen_ground(look: Look, dirt: Picture, h: int) -> Picture {
    let s = look.opts.scale as int;
    let end = h - LIST_FOOTER;
    let empty = canvas::plain(SCREEN_W * s, h * s, canvas::clear());
    let all = gui::with_dirt(empty, dirt, 0, 0, SCREEN_W as int, h, s, 4);
    let list = gui::with_dirt(
        all,
        dirt,
        0,
        LIST_TOP as int,
        SCREEN_W as int,
        end - LIST_TOP,
        s,
        8,
    );
    let upper = gui::with_edge(list, SCREEN_W as int, LIST_TOP as int, 4, s, true);
    let lower = gui::with_edge(upper, SCREEN_W as int, end, 4, s, false);
    with_centered(lower, card::in_color(look, 255, 255, 255), "Play Multiplayer"@, 20 * s)
}

/// Draws the ground of a screen.
fn draw_ground(ctx: &Ctx, dirt: &Canvas, h: u32) -> (img: Canvas)
    requires
        ctx.wf(),
        0 < ctx.opts.scale,
        dirt.wf(),
        dirt@.w >= 1,
        dirt@.h >= 1,
        200 <= h <= canvas::MAX_SIDE,
        canvas::fits(SCREEN_W * ctx.opts.scale, h * ctx.opts.scale),
    ensures
        img.wf(),
        img@.w == SCREEN_W * ctx.opts.scale,
        img@.h == h * ctx.opts.scale,
        img@ == screen_ground(ctx.look(), dirt@, h as int),
{
    let s: u32 = ctx.opts.scale;
    let end: u32 = h - LIST_FOOTER;
    let mut img = Canvas::filled_with(
        scaled(SCREEN_W, s),
        length(h, s, h),
        Rgba { r: 0, g: 0, b: 0, a: 0 },
    );
    fill_dirt_region(&mut img, dirt, 0, 0, SCREEN_W, h, s, 4);
    fill_dirt_region(&mut img, dirt, 0, LIST_TOP, SCREEN_W, end - LIST_TOP, s, 8);
    shadow_edge(&mut img, SCREEN_W, LIST_TOP, 4, s, true);
    shadow_edge(&mut img, SCREEN_W, end, 4, s, false);
    proof {
        reveal_strlit("Play Multiplayer");
    }
    let white = Ctx { font: ctx.font, opts: ctx.opts, fg: (255, 255, 255) };
    draw_centered(&mut img, &white, "Play Multiplayer", scaled(20, s) as i64);
    img
}

/// The enlargement that is used: at least one.
pub open spec fn used_scale(scale: u32) -> u32 {
    if scale > 1 {
        scale
    } else {
        1
    }
}

/// The look of text on a screen.
pub open spec fn screen_look(
    assets: AssetsView,
    scale: u32,
    target: TargetVersion,
    policy: OldColorPolicy,
) -> Look {
    Look {
        font: assets.font,
        opts: card::text_options(used_scale(scale), (0xAA, 0xAA, 0xAA), target, policy),
        fg: (0xAA, 0xAA, 0xAA),
    }
}

/// The height of the screen with one server.
pub const SINGLE_H: u32 = 240;

/// The screen with one server, selected: a white frame around a black ground, the entry, and the
/// search for servers nearby.
pub open spec fn select_picture(
    r: ResultView,
    assets: AssetsView,
    scale: u32,
    target: TargetVersion,
    policy: OldColorPolicy,
    title: Option<Seq<char>>,
) -> Picture {
    let look = screen_look(assets, scale, target, policy);
    let s = look.opts.scale as int;
    let h = SINGLE_H as int;
    let ground = screen_ground(look, assets.dirt, h);
    let frame = ground.filled(61 * s, 34 * s, 304 * s, 36 * s, canvas::solid(255, 255, 255));
    let inner = frame.filled(62 * s, 35 * s, 302 * s, 34 * s, canvas::solid(0, 0, 0));
    let entry = with_entry(
        inner,
        look,
        assets,
        ROW_LEFT as int,
        LIST_TOP + 4,
        info::title_of(r, title),
        Some(r),
    );
    let scan = with_centered(
        entry,
        card::in_color(look, 255, 255, 255),
        "Scanning for games on your local network"@,
        86 * s,
    );
    let dots = with_centered(scan, list_gray(look), "o O o"@, 95 * s);
    canvas::over_checker(with_buttons(dots, look, assets.button, h), card::checker_cell(s))
}

/// The screen with one server can be drawn.
pub open spec fn select_fits(r: ResultView, scale: u32, title: Option<Seq<char>>) -> bool {
    &&& scale <= MAX_SCALE
    &&& entry_ok(info::title_of(r, title), Some(r))
    &&& canvas::fits(SCREEN_W * used_scale(scale), SINGLE_H * used_scale(scale))
}

/// Whether the screen with one server can be drawn.
pub fn select_can_be_drawn(result: &PingResult, scale: u32, title: &Option<String>) -> (r: bool)
    ensures
        r == select_fits(result.model(), scale, text::opt_view(*title)),
{
    if scale > MAX_SCALE || !result_is_ok(result) {
        return false;
    }
    let t = title_text(result, title);
    let v = text::chars_of(t.as_str());
    let s: u32 = if scale > 1 {
        scale
    } else {
        1
    };
    v.len() <= MAX_CHARS && canvas::is_holdable(SCREEN_W as u64 * s as u64, SINGLE_H as u64 * s as u64)
}

/// Draws the screen with one server.
pub fn render_select_server_screen(
    assets: &Assets,
    result: &PingResult,
    opts: &ScreenOptions,
) -> (r: Canvas)
    requires
        assets.wf(),
        select_fits(result.model(), opts.scale, text::opt_view(opts.title)),
    ensures
        r.wf(),
        r@ == select_picture(
            result.model(),
            assets.model(),
            opts.scale,
            opts.target,
            opts.old_color_policy,
            text::opt_view(opts.title),
        ),
{
    let s: u32 = if opts.scale > 1 {
        opts.scale
    } else {
        1
    };
    let look = text_look(s, (0xAA, 0xAA, 0xAA), opts.target, opts.old_color_policy);
    let ctx = Ctx { font: &assets.font, opts: look, fg: (0xAA, 0xAA, 0xAA) };
    let mut img = draw_ground(&ctx, &assets.dirt, SINGLE_H);
    img.fill(
        scaled(61, s) as i64,
        scaled(34, s) as i64,
        scaled(304, s),
        scaled(36, s),
        Rgba { r: 255, g: 255, b: 255, a: 255 },
    );
    img.fill(
        scaled(62, s) as i64,
        scaled(35, s) as i64,
        scaled(302, s),
        scaled(34, s),
        Rgba { r: 0, g: 0, b: 0, a: 255 },
    );
    let title = title_text(result, &opts.title);
    draw_vanilla_entry(
        &mut img,
        &ctx,
        assets,
        ROW_LEFT,
        LIST_TOP + 4,
        title.as_str(),
        Some(result),
        SINGLE_H,
    );
    proof {
        reveal_strlit("Scanning for games on your local network");
        reveal_strlit("o O o");
    }
    let white = Ctx { font: ctx.font, opts: ctx.opts, fg: (255, 255, 255) };
    draw_centered(
        &mut img,
        &white,
        "Scanning for games on your local network",
        scaled(86, s) as i64,
    );
    draw_centered(&mut img, &ctx, "o O o", scaled(95, s) as i64);
    draw_footer_buttons(&mut img, &ctx, &assets.button, SINGLE_H);
    let cell: u32 = if 2 * s > 4 {
        2 * s
    } else {
        4
    };
    composite_over_checker(&img, cell)
}

/// The PNG file of the screen with one server.
pub fn render_select_server_png(
    assets: &Assets,
    result: &PingResult,
    opts: &ScreenOptions,
) -> (r: Result<Vec<u8>, String>)
    requires
        assets.wf(),
        select_fits(result.model(), opts.scale, text::opt_view(opts.title)),
    ensures
        motd::png_result(r) == motd::png_file(
            select_picture(
                result.model(),
                assets.model(),
                opts.scale,
                opts.target,
                opts.old_color_policy,
                text::opt_view(opts.title),
            ),
        ),
{
    let img = render_select_server_screen(assets, result, opts);
    encode_png(&img)
}

// ---- the screen with several servers ----

/// The height of the list for `n` entries: that of the entries and some space, but at least that of
/// the screen with one server.
pub open spec fn list_height(n: int) -> int {
    canvas::at_least(canvas::at_least(n, 1) * ITEM_H + 8, 144)
}

/// The height of the screen for `n` entries.
pub open spec fn screen_height(n: int) -> int {
    LIST_TOP + list_height(n) + LIST_FOOTER
}

/// A picture with the first `n` entries below each other.
pub open spec fn with_entries(
    p: Picture,
    look: Look,
    assets: AssetsView,
    entries: Seq<EntryView>,
    n: nat,
) -> Picture
    decreases n,
{
    if n == 0 {
        p
    } else {
        with_entry(
            with_entries(p, look, assets, entries, (n - 1) as nat),
            look,
            assets,
            ROW_LEFT as int,
            LIST_TOP + 4 + (n - 1) * ITEM_H,
            entries[n - 1].name,
            entries[n - 1].result,
        )
    }
}

/// The screen with several servers.
pub open spec fn list_picture(
    entries: Seq<EntryView>,
    assets: AssetsView,
    scale: u32,
    target: TargetVersion,
    policy: OldColorPolicy,
) -> Picture {
    let look = screen_look(assets, scale, target, policy);
    let h = screen_height(entries.len() as int);
    let list = with_entries(
        screen_ground(look, assets.dirt, h),
        look,
        assets,
        entries,
        entries.len(),
    );
    canvas::over_checker(
        with_buttons(list, look, assets.button, h),
        card::checker_cell(look.opts.scale as int),
    )
}

/// The screen with several servers can be drawn.
pub open spec fn list_fits(entries: Seq<EntryView>, scale: u32) -> bool {
    &&& scale <= MAX_SCALE
    &&& forall|i: int|
        0 <= i < entries.len() ==> entry_ok((#[trigger] entries[i]).name, entries[i].result)
    &&& canvas::fits(
        SCREEN_W * used_scale(scale),
        screen_height(entries.len() as int) * used_scale(scale),
    )
}

/// Whether the screen with several servers can be drawn.
pub fn list_can_be_drawn(entries: &Vec<ListEntry>, scale: u32) -> (r: bool)
    ensures
        r == list_fits(entry_views(entries@), scale),
{
    let ghost all = entry_views(entries@);
    if scale > MAX_SCALE {
        return false;
    }
    let s: u32 = if scale > 1 {
        scale
    } else {
        1
    };
    if entries.len() > 0x400_0000 {
        proof {
            let h = screen_height(all.len() as int);
            assert(h * s > canvas::MAX_SIDE) by (nonlinear_arith)
                requires
                    h >= 0x8000_0000,
                    s >= 1,
            ;
        }
        return false;
    }
    let h: u32 = screen_height_of(entries.len());
    assert(h * s <= 0x1_0000_0000 * 0x10_0000) by (nonlinear_arith)
        requires
            0 <= h <= 0x1_0000_0000,
            0 <= s <= 0x10_0000,
    ;
    if !canvas::is_holdable(SCREEN_W as u64 * s as u64, h as u64 * s as u64) {
        return false;
    }
    for i in 0..entries.len()
        invariant
            all == entry_views(entries@),
            forall|k: int|
                0 <= k < i ==> entry_ok((#[trigger] all[k]).name, all[k].result),
    {
        assert(all[i as int] == entries@[i as int].model());
        if !entry_is_ok(entries[i].name.as_str(), &entries[i].result) {
            return false;
        }
    }
    true
}

/// The height of the screen for `n` entries.
fn screen_height_of(n: usize) -> (h: u32)
    requires
        n <= 0x400_0000,
    ensures
        h == screen_height(n as int),
        h >= 240,
{
    let m: u32 = if n > 1 {
        n as u32
    } else {
        1
    };
    let list: u32 = if m * ITEM_H + 8 > 144 {
        m * ITEM_H + 8
    } else {
        144
    };
    LIST_TOP + list + LIST_FOOTER
}

proof fn lemma_few_entries(n: int, s: int)
    requires
        0 <= n,
        1 <= s,
        screen_height(n) * s <= canvas::MAX_SIDE,
    ensures
        n <= 0x400_0000,
        screen_height(n) <= canvas::MAX_SIDE,
{
    let h = screen_height(n);
    assert(h <= h * s) by (nonlinear_arith)
        requires
            0 <= h,
            1 <= s,
    ;
}

/// Draws the screen with several servers. The list grows with them.
pub fn render_server_list_screen(
    assets: &Assets,
    entries: &Vec<ListEntry>,
    opts: &ScreenOptions,
) -> (r: Canvas)
    requires
        assets.wf(),
        list_fits(entry_views(entries@), opts.scale),
    ensures
        r.wf(),
        r@ == list_picture(
            entry_views(entries@),
            assets.model(),
            opts.scale,
            opts.target,
            opts.old_color_policy,
        ),
{
    let ghost all = entry_views(entries@);
    let s: u32 = if opts.scale > 1 {
        opts.scale
    } else {
        1
    };
    proof {
        lemma_few_entries(all.len() as int, s as int);
    }
    let h: u32 = screen_height_of(entries.len());
    let look = text_look(s, (0xAA, 0xAA, 0xAA), opts.target, opts.old_color_policy);
    let ctx = Ctx { font: &assets.font, opts: look, fg: (0xAA, 0xAA, 0xAA) };
    let mut img = draw_ground(&ctx, &assets.dirt, h);
    let ghost ground = img@;
    for i in 0..entries.len()
        invariant
            all == entry_views(entries@),
            assets.wf(),
            ctx.wf(),
            *ctx.font == assets.font,
            0 < ctx.opts.scale,
            h * ctx.opts.scale <= canvas::MAX_SIDE,
            h == screen_height(all.len() as int),
            forall|k: int|
                0 <= k < all.len() ==> entry_ok((#[trigger] all[k]).name, all[k].result),
            img.wf(),
            img@.w == ground.w,
            img@.h == ground.h,
            img@ == with_entries(ground, ctx.look(), assets.model(), all, i as nat),
    {
        assert(all[i as int] == entries@[i as int].model());
        let top: u32 = LIST_TOP + 4 + i as u32 * ITEM_H;
        let result = match &entries[i].result {
            Some(r) => Some(r),
            None => None,
        };
        draw_vanilla_entry(
            &mut img,
            &ctx,
            assets,
            ROW_LEFT,
            top,
            entries[i].name.as_str(),
            result,
            h,
        );
    }
    draw_footer_buttons(&mut img, &ctx, &assets.button, h);
    let cell: u32 = if 2 * s > 4 {
        2 * s
    } else {
        4
    };
    proof {
        assert(h * s >= 1) by (nonlinear_arith)
            requires
                h >= 1,
                s >= 1,
        ;
    }
    composite_over_checker(&img, cell)
}

/// The PNG file of the screen with several servers.
pub fn render_server_list_png(
    assets: &Assets,
    entries: &Vec<ListEntry>,
    opts: &ScreenOptions,
) -> (r: Result<Vec<u8>, String>)
    requires
        assets.wf(),
        list_fits(entry_views(entries@), opts.scale),
    ensures
        motd::png_result(r) == motd::png_file(
            list_picture(
                entry_views(entries@),
                assets.model(),
                opts.scale,
                opts.target,
                opts.old_color_policy,
            ),
        ),
{
    let img = render_server_list_screen(assets, entries, opts);
    encode_png(&img)
}

proof fn lemma_ground_size(look: Look, dirt: Picture, h: int)
    requires
        look.font.wf(),
        0 < look.opts.scale <= MAX_SCALE,
    ensures
        screen_ground(look, dirt, h).w == SCREEN_W * look.opts.scale,
        screen_ground(look, dirt, h).h == h * look.opts.scale,
{
    let s = look.opts.scale as int;
    let end = h - LIST_FOOTER;
    let all = gui::with_dirt(
        canvas::plain(SCREEN_W * s, h * s, canvas::clear()),
        dirt,
        0,
        0,
        SCREEN_W as int,
        h,
        s,
        4,
    );
    let list = gui::with_dirt(
        all,
        dirt,
        0,
        LIST_TOP as int,
        SCREEN_W as int,
        end - LIST_TOP,
        s,
        8,
    );
    let upper = gui::with_edge(list, SCREEN_W as int, LIST_TOP as int, 4, s, true);
    let lower = gui::with_edge(upper, SCREEN_W as int, end, 4, s, false);
    let spans = info::plain_line("Play Multiplayer"@);
    let left = MIDDLE * s - layout::measured(spans, look.font, s) / 2;
    draw::text_stays_behind_its_start(
        lower,
        card::in_color(look, 255, 255, 255),
        left,
        20 * s,
        spans,
        SCREEN_W as int,
        1,
        left - 5 * s - 1,
        0,
    );
}

/// The pictures have one size, and the same pixel at a place.
spec fn same_at(p: Picture, q: Picture, x: int, y: int) -> bool {
    p.w == q.w && p.h == q.h && p.px(x, y) == q.px(x, y)
}

proof fn lemma_entry_reach(
    p: Picture,
    look: Look,
    assets: AssetsView,
    name: Seq<char>,
    r: ResultView,
    x: int,
    y: int,
)
    requires
        look.font.wf(),
        0 < look.opts.scale <= MAX_SCALE,
        x < 62 * look.opts.scale,
        layout::measured(info::player_count(r.status), look.font, look.opts.scale as int) <= 284
            * look.opts.scale,
    ensures
        same_at(
            with_entry(p, look, assets, ROW_LEFT as int, LIST_TOP + 4, name, Some(r)),
            p,
            x,
            y,
        ),
{
    let s = look.opts.scale as int;
    let left = ROW_LEFT as int;
    let top = LIST_TOP + 4;
    let start = (left + 35) * s;
    let right = left + ROW_W;
    let count_right = (right - 17) * s;
    let icon = gui::with_icon(p, gui::icon_of(r.status), left * s, top * s, 32 * s);
    let sprite = gui::sprite_for(assets, r.latency);
    let bars = icon.stamped(sprite, (right - 15) * s, top * s, s);
    assert(start == 98 * s) by (nonlinear_arith)
        requires
            start == (left + 35) * s,
            left == 63,
    ;
    assert(count_right == 351 * s) by (nonlinear_arith)
        requires
            count_right == (right - 17) * s,
            right == 368,
    ;
    assert((x - (right - 15) * s) / s < 0) by (nonlinear_arith)
        requires
            x < 62 * s,
            s > 0,
            right == 368,
    ;
    assert(bars.px(x, y) == p.px(x, y));
    let count = info::player_count(r.status);
    let counted = draw::with_right(bars, list_gray(look), count_right, (top + 1) * s, count);
    draw::right_text_stays_behind_its_start(
        bars,
        list_gray(look),
        count_right,
        (top + 1) * s,
        count,
        x,
        y,
    );
    let room = card::title_width(count_right, layout::measured(count, look.font, s), start, s);
    let white = card::in_color(look, 255, 255, 255);
    let named = draw::with_block(
        counted,
        white,
        start,
        (top + 1) * s,
        info::plain_line(name),
        room,
        1,
    );
    draw::text_stays_behind_its_start(
        counted,
        white,
        start,
        (top + 1) * s,
        info::plain_line(name),
        room,
        1,
        x,
        y,
    );
    draw::text_stays_behind_its_start(
        named,
        list_gray(look),
        start,
        (top + 12) * s,
        component::spans_of(r.status.description),
        MOTD_WIDTH as int,
        2,
        x,
        y,
    );
}

proof fn lemma_centered_reach(p: Picture, look: Look, t: Seq<char>, top: int, x: int, y: int)
    requires
        look.font.wf(),
        draw::low_font(look.font),
        0 < look.opts.scale <= MAX_SCALE,
        y < top - 9 * look.opts.scale,
    ensures
        same_at(with_centered(p, look, t, top), p, x, y),
{
    let s = look.opts.scale as int;
    let spans = info::plain_line(t);
    draw::text_stays_behind_its_start(
        p,
        look,
        MIDDLE * s - layout::measured(spans, look.font, s) / 2,
        top,
        spans,
        SCREEN_W as int,
        1,
        x,
        y,
    );
}

proof fn lemma_button_reach(
    p: Picture,
    look: Look,
    tex: Picture,
    left: int,
    top: int,
    w: int,
    label: Seq<char>,
    x: int,
    y: int,
)
    requires
        look.font.wf(),
        draw::low_font(look.font),
        0 < look.opts.scale <= MAX_SCALE,
        y < (top - 9) * look.opts.scale,
    ensures
        same_at(gui::with_button(p, look, tex, left, top, w, label), p, x, y),
{
    let s = look.opts.scale as int;
    let spans = info::plain_line(label);
    assert(y / s < top) by (nonlinear_arith)
        requires
            y < (top - 9) * s,
            s > 0,
    ;
    assert((top - 9) * s == top * s - 9 * s) by (nonlinear_arith);
    draw::text_stays_behind_its_start(
        gui::with_button_face(p, tex, left, top, w, s),
        Look { fg: (255, 255, 255), ..look },
        left * s + gui::half(w * s - layout::measured(spans, look.font, s)),
        top * s + 6 * s,
        spans,
        w,
        1,
        x,
        y,
    );
}

proof fn lemma_buttons_reach(p: Picture, look: Look, tex: Picture, x: int, y: int)
    requires
        look.font.wf(),
        draw::low_font(look.font),
        0 < look.opts.scale <= MAX_SCALE,
        y < 179 * look.opts.scale,
    ensures
        same_at(with_buttons(p, look, tex, SINGLE_H as int), p, x, y),
{
    let p1 = gui::with_button(p, look, tex, 59, 188, 100, "Join Server"@);
    let p2 = gui::with_button(p1, look, tex, 163, 188, 100, "Direct Connection"@);
    let p3 = gui::with_button(p2, look, tex, 267, 188, 100, "Add Server"@);
    let p4 = gui::with_button(p3, look, tex, 59, 212, 70, "Edit"@);
    let p5 = gui::with_button(p4, look, tex, 139, 212, 70, "Delete"@);
    let p6 = gui::with_button(p5, look, tex, 217, 212, 70, "Refresh"@);
    lemma_button_reach(p, look, tex, 59, 188, 100, "Join Server"@, x, y);
    lemma_button_reach(p1, look, tex, 163, 188, 100, "Direct Connection"@, x, y);
    lemma_button_reach(p2, look, tex, 267, 188, 100, "Add Server"@, x, y);
    lemma_button_reach(p3, look, tex, 59, 212, 70, "Edit"@, x, y);
    lemma_button_reach(p4, look, tex, 139, 212, 70, "Delete"@, x, y);
    lemma_button_reach(p5, look, tex, 217, 212, 70, "Refresh"@, x, y);
    lemma_button_reach(p6, look, tex, 293, 212, 75, "Cancel"@, x, y);
}

/// The left edge of the frame around the selected server is white from its upper to its lower corner,
/// whatever the server says, as long as the count of players is no wider than the row and no glyph
/// reaches far up.
pub proof fn frame_is_white_on_the_left(
    r: ResultView,
    assets: AssetsView,
    scale: u32,
    target: TargetVersion,
    policy: OldColorPolicy,
    title: Option<Seq<char>>,
    x: int,
    y: int,
)
    requires
        assets.font.wf(),
        scale <= MAX_SCALE,
        draw::low_font(assets.font),
        layout::measured(info::player_count(r.status), assets.font, used_scale(scale) as int) <= 284
            * used_scale(scale),
        61 * used_scale(scale) <= x < 62 * used_scale(scale),
        34 * used_scale(scale) <= y < 70 * used_scale(scale),
    ensures
        select_picture(r, assets, scale, target, policy, title).px(x, y) == canvas::solid(
            255,
            255,
            255,
        ),
{
    let look = screen_look(assets, scale, target, policy);
    let s = look.opts.scale as int;
    let h = SINGLE_H as int;
    let ground = screen_ground(look, assets.dirt, h);
    lemma_ground_size(look, assets.dirt, h);
    let frame = ground.filled(61 * s, 34 * s, 304 * s, 36 * s, canvas::solid(255, 255, 255));
    let inner = frame.filled(62 * s, 35 * s, 302 * s, 34 * s, canvas::solid(0, 0, 0));
    lemma_frame(ground, s, x, y);
    let name = info::title_of(r, title);
    let entry = with_entry(
        inner,
        look,
        assets,
        ROW_LEFT as int,
        LIST_TOP + 4,
        name,
        Some(r),
    );
    lemma_entry_reach(inner, look, assets, name, r, x, y);
    let white = card::in_color(look, 255, 255, 255);
    let searching = "Scanning for games on your local network"@;
    let scan = with_centered(entry, white, searching, 86 * s);
    lemma_centered_reach(entry, white, searching, 86 * s, x, y);
    let dots = with_centered(scan, list_gray(look), "o O o"@, 95 * s);
    lemma_centered_reach(scan, list_gray(look), "o O o"@, 95 * s, x, y);
    lemma_buttons_reach(dots, look, assets.button, x, y);
    lemma_checker_keeps_white(
        with_buttons(dots, look, assets.button, h),
        card::checker_cell(s),
        x,
        y,
    );
}

proof fn lemma_frame(ground: Picture, s: int, x: int, y: int)
    requires
        s > 0,
        ground.inside(x, y),
        61 * s <= x < 62 * s,
        34 * s <= y < 70 * s,
    ensures
        ({
            let frame = ground.filled(61 * s, 34 * s, 304 * s, 36 * s, canvas::solid(255, 255, 255));
            let inner = frame.filled(62 * s, 35 * s, 302 * s, 34 * s, canvas::solid(0, 0, 0));
            &&& inner.px(x, y) == canvas::solid(255, 255, 255)
            &&& inner.w == ground.w
            &&& inner.h == ground.h
        }),
{
}

proof fn lemma_checker_keeps_white(p: Picture, cell: int, x: int, y: int)
    requires
        p.inside(x, y),
        p.px(x, y) == canvas::solid(255, 255, 255),
    ensures
        canvas::over_checker(p, cell).px(x, y) == canvas::solid(255, 255, 255),
{
}

/// What an entry holds is what its fields say.
pub proof fn entries_hold_their_fields(list: Seq<ListEntry>, i: int)
    requires
        0 <= i < list.len(),
    ensures
        entry_views(list).len() == list.len(),
        entry_views(list)[i].name == list[i].name@,
        list[i].result is None ==> entry_views(list)[i].result is None,
        list[i].result is Some ==> entry_views(list)[i].result == Some(list[i].result->0.model()),
{
}

} // verus!
