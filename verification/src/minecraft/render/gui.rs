//! The pieces of the game's screens: icons, signal bars, dirt, shadows and buttons.

use vstd::prelude::*;
use crate::minecraft::font;
use crate::minecraft::font::VanillaFont;
use crate::minecraft::outside;
use crate::minecraft::render::canvas;
use crate::minecraft::render::canvas::{blend, blit_favicon, placeholder_icon, Canvas, Picture, Rgba};
use crate::minecraft::render::draw;
use crate::minecraft::render::draw::{draw_block_dev, Ctx, Look};
use crate::minecraft::render::info;
use crate::minecraft::render::info::line_spans;
use crate::minecraft::render::layout;
use crate::minecraft::render::layout::{measure_dev, MAX_CHARS};
use crate::minecraft::render::options::MAX_SCALE;
use crate::minecraft::status;
use crate::minecraft::status::{StatusResponse, StatusView};

verus! {

// ---- image files ----

/// The picture of a decoded file; none where there is no file that can be held.
pub open spec fn decoded(d: Option<(nat, nat, Seq<u8>)>) -> Option<Picture> {
    match d {
        Some((w, h, raw)) => if w <= canvas::MAX_SIDE && h <= canvas::MAX_SIDE {
            Some(canvas::from_raw(w as int, h as int, raw))
        } else {
            None
        },
        None => None,
    }
}

/// The pixels of a decoded file.
pub open spec fn pixels_view(d: Option<(u32, u32, Vec<u8>)>) -> Option<(nat, nat, Seq<u8>)> {
    match d {
        Some((w, h, raw)) => Some((w as nat, h as nat, raw@)),
        None => None,
    }
}

/// No pixel of a decoded file is missing.
pub open spec fn pixels_ok(d: Option<(nat, nat, Seq<u8>)>) -> bool {
    d matches Some((w, h, raw)) ==> 4 * (w * h) <= raw.len()
}

/// The optional picture.
pub open spec fn opt_picture(c: Option<Canvas>) -> Option<Picture> {
    match c {
        Some(x) => Some(x@),
        None => None,
    }
}

/// The picture of a decoded file.
pub fn picture_of(d: Option<(u32, u32, Vec<u8>)>) -> (r: Option<Canvas>)
    requires
        pixels_ok(pixels_view(d)),
    ensures
        opt_picture(r) == decoded(pixels_view(d)),
        r matches Some(c) ==> c.wf(),
{
    match d {
        Some((w, h, raw)) => {
            if w <= canvas::MAX_SIDE && h <= canvas::MAX_SIDE {
                assert(raw.len() <= usize::MAX);
                Some(Canvas::from_bytes(w, h, &raw))
            } else {
                None
            }
        },
        None => None,
    }
}

/// A sprite: the picture of its file, or an empty one of the given sides.
pub open spec fn sprite_of(d: Option<(nat, nat, Seq<u8>)>, w: int, h: int) -> Picture {
    match decoded(d) {
        Some(p) => p,
        None => canvas::plain(w, h, canvas::clear()),
    }
}

/// Reads a sprite from its file.
pub fn load_sprite(file: &[u8], w: u32, h: u32) -> (r: Canvas)
    requires
        canvas::fits(w as int, h as int),
    ensures
        r.wf(),
        r@ == sprite_of(outside::image_of(file@), w as int, h as int),
{
    sprite_from(outside::decode_image(file), w, h)
}

/// A sprite from what decoding its file gave.
pub fn sprite_from(d: Option<(u32, u32, Vec<u8>)>, w: u32, h: u32) -> (r: Canvas)
    requires
        pixels_ok(pixels_view(d)),
        canvas::fits(w as int, h as int),
    ensures
        r.wf(),
        r@ == sprite_of(pixels_view(d), w as int, h as int),
{
    match picture_of(d) {
        Some(c) => c,
        None => Canvas::filled_with(w, h, Rgba { r: 0, g: 0, b: 0, a: 0 }),
    }
}

/// The icon among decoded pictures: one that has a pixel.
pub open spec fn as_icon(p: Option<Picture>) -> Option<Picture> {
    match p {
        Some(x) => if x.w >= 1 && x.h >= 1 {
            Some(x)
        } else {
            None
        },
        None => None,
    }
}

/// The icon of a server, where it sends one that can be read.
pub open spec fn icon_of(s: StatusView) -> Option<Picture> {
    match s.favicon {
        Some(data) => match status::some_bytes(
            outside::base64_of(vstd::utf8::encode_utf8(status::favicon_text(data))),
        ) {
            Some(file) => as_icon(decoded(outside::image_of(file))),
            None => None,
        },
        None => None,
    }
}

/// The icon of a server, where it sends one that can be read.
pub fn load_icon(s: &StatusResponse) -> (r: Option<Canvas>)
    ensures
        opt_picture(r) == icon_of(s.model()),
        r matches Some(c) ==> c.wf() && c@.w >= 1 && c@.h >= 1,
{
    match s.favicon_png() {
        Some(file) => icon_from(outside::decode_image(file.as_slice())),
        None => None,
    }
}

/// An icon from what decoding its file gave: a picture that has a pixel.
pub fn icon_from(d: Option<(u32, u32, Vec<u8>)>) -> (r: Option<Canvas>)
    requires
        pixels_ok(pixels_view(d)),
    ensures
        opt_picture(r) == as_icon(decoded(pixels_view(d))),
        r matches Some(c) ==> c.wf() && c@.w >= 1 && c@.h >= 1,
{
    match picture_of(d) {
        Some(c) => {
            if c.width() >= 1 && c.height() >= 1 {
                Some(c)
            } else {
                None
            }
        },
        None => None,
    }
}

/// A picture with an icon, or with the frame that stands for a missing one.
pub open spec fn with_icon(p: Picture, icon: Option<Picture>, x: int, y: int, size: int) -> Picture {
    match icon {
        Some(i) => p.fitted(i, x, y, size),
        None => p.framed(x, y, size),
    }
}

/// Draws an icon, or the frame that stands for a missing one.
pub fn draw_icon(img: &mut Canvas, icon: &Option<Canvas>, x: u32, y: u32, size: u32)
    requires
        old(img).wf(),
        icon matches Some(c) ==> c.wf() && c@.w >= 1 && c@.h >= 1,
    ensures
        final(img).wf(),
        final(img)@ == with_icon(old(img)@, opt_picture(*icon), x as int, y as int, size as int),
{
    match icon {
        Some(c) => blit_favicon(img, c, x, y, size),
        None => placeholder_icon(img, x, y, size),
    }
}

// ---- the game's pictures ----

/// The font and the pictures of the game.
pub struct Assets {
    pub font: VanillaFont,
    /// The signal bars, from one to five.
    pub bars: Vec<Canvas>,
    pub unreachable: Canvas,
    pub dirt: Canvas,
    pub button: Canvas,
}

/// What an [`Assets`] holds.
pub struct AssetsView {
    pub font: VanillaFont,
    pub bars: Seq<Picture>,
    pub unreachable: Picture,
    pub dirt: Picture,
    pub button: Picture,
}

impl Assets {
    /// What the assets hold.
    pub open spec fn model(self) -> AssetsView {
        AssetsView {
            font: self.font,
            bars: canvas::pictures(self.bars@),
            unreachable: self.unreachable@,
            dirt: self.dirt@,
            button: self.button@,
        }
    }

    /// All that is drawn from them is there.
    pub open spec fn wf(self) -> bool {
        &&& self.font.wf()
        &&& self.bars@.len() == 5
        &&& forall|i: int| 0 <= i < 5 ==> (#[trigger] self.bars@[i]).wf()
        &&& self.unreachable.wf()
        &&& self.dirt.wf()
        &&& self.dirt@.w >= 1
        &&& self.dirt@.h >= 1
        &&& self.button.wf()
        &&& self.button@.w >= 50
        &&& self.button@.h >= 20
    }

    /// Reads the font and the pictures from their files. A picture that cannot be read is empty;
    /// there are no assets where the font or a picture cannot be drawn from.
    pub fn load(
        mcfont: &[u8],
        unifont: &[u8],
        bars: &Vec<Vec<u8>>,
        unreachable: &[u8],
        dirt: &[u8],
        button: &[u8],
    ) -> (r: Option<Assets>)
        requires
            bars@.len() == 5,
        ensures
            r is Some <==> {
                &&& font::table_ok(font::mcfont_table(mcfont@))
                &&& font::unifont_ok(unifont@)
                &&& sprite_of(outside::image_of(dirt@), 1, 1).w >= 1
                &&& sprite_of(outside::image_of(dirt@), 1, 1).h >= 1
                &&& sprite_of(outside::image_of(button@), 1, 1).w >= 50
                &&& sprite_of(outside::image_of(button@), 1, 1).h >= 20
            },
            r matches Some(a) ==> {
                &&& a.wf()
                &&& a.font.default_table() == font::mcfont_table(mcfont@)
                &&& a.font.unifont_table() == font::unifont_table_of(unifont@)
                &&& forall|i: int|
                    0 <= i < 5 ==> (#[trigger] a.model().bars[i]) == sprite_of(
                        outside::image_of(bars@[i]@),
                        10,
                        8,
                    )
                &&& a.unreachable@ == sprite_of(outside::image_of(unreachable@), 10, 8)
                &&& a.dirt@ == sprite_of(outside::image_of(dirt@), 1, 1)
                &&& a.button@ == sprite_of(outside::image_of(button@), 1, 1)
            },
    {
        let dirt_img = load_sprite(dirt, 1, 1);
        let button_img = load_sprite(button, 1, 1);
        let big_enough = dirt_img.width() >= 1 && dirt_img.height() >= 1 && button_img.width() >= 50
            && button_img.height() >= 20;
        let f = match font::font(mcfont, unifont) {
            Some(f) => f,
            None => {
                return None;
            },
        };
        if !big_enough {
            return None;
        }
        let mut list: Vec<Canvas> = Vec::new();
        for i in 0..5usize
            invariant
                bars@.len() == 5,
                list@.len() == i,
                forall|k: int| 0 <= k < i ==> (#[trigger] list@[k]).wf(),
                forall|k: int|
                    0 <= k < i ==> (#[trigger] list@[k])@ == sprite_of(
                        outside::image_of(bars@[k]@),
                        10,
                        8,
                    ),
        {
            let c = load_sprite(bars[i].as_slice(), 10, 8);
            list.push(c);
        }
        Some(
            Assets {
                font: f,
                bars: list,
                unreachable: load_sprite(unreachable, 10, 8),
                dirt: dirt_img,
                button: button_img,
            },
        )
    }
}

/// How many signal bars a latency in milliseconds has, less one.
pub open spec fn bar_index(ms: u128) -> int {
    if ms < 150 {
        4
    } else if ms < 300 {
        3
    } else if ms < 600 {
        2
    } else if ms < 1000 {
        1
    } else {
        0
    }
}

/// The signal bars of a latency; without one, the sign of a server that cannot be reached.
pub open spec fn sprite_for(a: AssetsView, latency: Option<u128>) -> Picture {
    match latency {
        Some(ms) => a.bars[bar_index(ms)],
        None => a.unreachable,
    }
}

/// The signal bars of a latency.
pub fn ping_sprite<'a>(a: &'a Assets, latency: Option<u128>) -> (r: &'a Canvas)
    requires
        a.wf(),
    ensures
        r.wf(),
        r@ == sprite_for(a.model(), latency),
{
    match latency {
        None => &a.unreachable,
        Some(ms) => {
            let i: usize = if ms < 150 {
                4
            } else if ms < 300 {
                3
            } else if ms < 600 {
                2
            } else if ms < 1000 {
                1
            } else {
                0
            };
            &a.bars[i]
        },
    }
}

// ---- cells of the screen ----

/// The cells of a screen: each GUI pixel is a square of `scale` pixels.
pub open spec fn celled(
    p: Picture,
    scale: int,
    left: int,
    top: int,
    w: int,
    h: int,
    f: spec_fn(int, int, Rgba) -> Rgba,
) -> Picture {
    p.plotted(
        |x: int, y: int, old: Rgba|
            if canvas::in_rect(x / scale, y / scale, left, top, w, h) {
                f(x / scale, y / scale, old)
            } else {
                old
            },
    )
}

/// The colour of the dirt at a GUI pixel, divided by a number; its pixels are two GUI pixels wide.
pub open spec fn dirt_at(dirt: Picture, gx: int, gy: int, div: int) -> Rgba {
    let c = dirt.px((gx / 2) % dirt.w, (gy / 2) % dirt.h);
    canvas::solid((c.r as int / div) as u8, (c.g as int / div) as u8, (c.b as int / div) as u8)
}

/// A picture with a rectangle of dirt.
pub open spec fn with_dirt(
    p: Picture,
    dirt: Picture,
    left: int,
    top: int,
    w: int,
    h: int,
    scale: int,
    div: int,
) -> Picture {
    celled(p, scale, left, top, w, h, |gx: int, gy: int, old: Rgba| dirt_at(dirt, gx, gy, div))
}

/// Draws a rectangle of dirt.
pub fn fill_dirt_region(
    img: &mut Canvas,
    dirt: &Canvas,
    left: u32,
    top: u32,
    w: u32,
    h: u32,
    scale: u32,
    div: u8,
)
    requires
        old(img).wf(),
        dirt.wf(),
        dirt@.w >= 1,
        dirt@.h >= 1,
        div > 0,
        0 < scale <= MAX_SCALE,
        left + w <= canvas::MAX_SIDE,
        top + h <= canvas::MAX_SIDE,
    ensures
        final(img).wf(),
        final(img)@ == with_dirt(
            old(img)@,
            dirt@,
            left as int,
            top as int,
            w as int,
            h as int,
            scale as int,
            div as int,
        ),
{
    let ghost before = img@;
    let ghost s = scale as int;
    let ghost goal = with_dirt(
        before,
        dirt@,
        left as int,
        top as int,
        w as int,
        h as int,
        s,
        div as int,
    );
    let tw: u32 = dirt.width();
    let th: u32 = dirt.height();
    let mut gy: u32 = top;
    while gy < top + h
        invariant
            dirt.wf(),
            tw == dirt@.w >= 1,
            th == dirt@.h >= 1,
            div > 0,
            s == scale,
            0 < scale <= MAX_SCALE,
            left + w <= canvas::MAX_SIDE,
            top + h <= canvas::MAX_SIDE,
            goal == with_dirt(
                before,
                dirt@,
                left as int,
                top as int,
                w as int,
                h as int,
                s,
                div as int,
            ),
            img.wf(),
            img@.w == before.w,
            img@.h == before.h,
            top <= gy <= top + h,
            forall|a: int, b: int| #[trigger]
                img@.px(a, b) == (if b / s < gy {
                    goal.px(a, b)
                } else {
                    before.px(a, b)
                }),
        decreases top + h - gy,
    {
        let ty: u32 = (gy / 2) % th;
        let mut gx: u32 = left;
        while gx < left + w
            invariant
                dirt.wf(),
                tw == dirt@.w >= 1,
                th == dirt@.h >= 1,
                div > 0,
                s == scale,
                0 < scale <= MAX_SCALE,
                left + w <= canvas::MAX_SIDE,
                top + h <= canvas::MAX_SIDE,
                goal == with_dirt(
                    before,
                    dirt@,
                    left as int,
                    top as int,
                    w as int,
                    h as int,
                    s,
                    div as int,
                ),
                img.wf(),
                img@.w == before.w,
                img@.h == before.h,
                top <= gy < top + h,
                ty == (gy as int / 2) % (th as int),
                left <= gx <= left + w,
                forall|a: int, b: int| #[trigger]
                    img@.px(a, b) == (if b / s < gy || (b / s == gy && a / s < gx) {
                        goal.px(a, b)
                    } else {
                        before.px(a, b)
                    }),
            decreases left + w - gx,
        {
            let tx: u32 = (gx / 2) % tw;
            let c = dirt.get(tx, ty);
            let dark = Rgba { r: c.r / div, g: c.g / div, b: c.b / div, a: 255 };
            let ghost prior = img@;
            proof {
                lemma_cell_bound(gx as int, s);
                lemma_cell_bound(gy as int, s);
            }
            img.fill(gx as i64 * scale as i64, gy as i64 * scale as i64, scale, scale, dark);
            proof {
                assert forall|a: int, b: int| #[trigger]
                    img@.px(a, b) == (if b / s < gy || (b / s == gy && a / s < gx + 1) {
                        goal.px(a, b)
                    } else {
                        before.px(a, b)
                    }) by {
                    assert(prior.px(a, b) == (if b / s < gy || (b / s == gy && a / s < gx) {
                        goal.px(a, b)
                    } else {
                        before.px(a, b)
                    }));
                    canvas::lemma_cell(a, 0, gx as int, s);
                    canvas::lemma_cell(b, 0, gy as int, s);
                }
            }
            gx += 1;
        }
        proof {
            assert forall|a: int, b: int| #[trigger]
                img@.px(a, b) == (if b / s < gy + 1 {
                    goal.px(a, b)
                } else {
                    before.px(a, b)
                }) by {}
        }
        gy += 1;
    }
    proof {
        canvas::lemma_same(img@, goal);
    }
}

proof fn lemma_cell_bound(i: int, scale: int)
    requires
        0 <= i <= 0x7FFF_FFFF,
        0 <= scale <= 0x10_0000,
    ensures
        0 <= i * scale <= 0x8_0000_0000_0000,
{
    assert(0 <= i * scale <= 0x8_0000_0000_0000) by (nonlinear_arith)
        requires
            0 <= i <= 0x7FFF_FFFF,
            0 <= scale <= 0x10_0000,
    ;
}

/// Lays a colour over one place; outside the picture nothing happens.
pub fn put_blend(img: &mut Canvas, x: i64, y: i64, c: Rgba)
    requires
        old(img).wf(),
    ensures
        final(img).wf(),
        final(img)@ == veiled(old(img)@, x as int, y as int, 1, 1, c),
{
    let ghost before = img@;
    let iw: i64 = img.width() as i64;
    let ih: i64 = img.height() as i64;
    if 0 <= x && x < iw && 0 <= y && y < ih {
        let under = img.get(x as u32, y as u32);
        img.put(x as u32, y as u32, blend(c, under));
    }
    proof {
        canvas::lemma_same(img@, veiled(before, x as int, y as int, 1, 1, c));
    }
}

/// A picture with a colour laid over a rectangle.
pub open spec fn veiled(p: Picture, x: int, y: int, w: int, h: int, c: Rgba) -> Picture {
    p.plotted(
        |a: int, b: int, old: Rgba|
            if canvas::in_rect(a, b, x, y, w, h) {
                canvas::blended(c, old)
            } else {
                old
            },
    )
}

/// Lays a colour over a rectangle.
pub fn blend_rect(img: &mut Canvas, x: i64, y: i64, w: i64, h: i64, c: Rgba)
    requires
        old(img).wf(),
        0 <= x <= canvas::MAX_COORD,
        0 <= y <= canvas::MAX_COORD,
        0 <= w <= canvas::MAX_COORD,
        0 <= h <= canvas::MAX_COORD,
    ensures
        final(img).wf(),
        final(img)@ == veiled(old(img)@, x as int, y as int, w as int, h as int, c),
{
    let ghost before = img@;
    let ghost goal = veiled(before, x as int, y as int, w as int, h as int, c);
    let iw: i64 = img.width() as i64;
    let ih: i64 = img.height() as i64;
    let x1: i64 = if x + w < iw {
        x + w
    } else {
        iw
    };
    let y1: i64 = if y + h < ih {
        y + h
    } else {
        ih
    };
    let mut yy: i64 = y;
    while yy < y1
        invariant
            goal == veiled(before, x as int, y as int, w as int, h as int, c),
            img.wf(),
            img@.w == before.w == iw,
            img@.h == before.h == ih,
            0 <= x,
            0 <= y <= yy,
            yy <= y1 || yy == y,
            x1 <= iw <= canvas::MAX_SIDE,
            y1 <= ih <= canvas::MAX_SIDE,
            x1 == iw || x1 == x + w,
            y1 == ih || y1 == y + h,
            x1 <= x + w,
            y1 <= y + h,
            forall|a: int, b: int| #[trigger]
                img@.px(a, b) == (if b < yy {
                    goal.px(a, b)
                } else {
                    before.px(a, b)
                }),
        decreases y1 - yy,
    {
        let mut xx: i64 = x;
        while xx < x1
            invariant
                goal == veiled(before, x as int, y as int, w as int, h as int, c),
                img.wf(),
                img@.w == before.w == iw,
                img@.h == before.h == ih,
                0 <= x <= xx,
                xx <= x1 || xx == x,
                0 <= y <= yy < y1,
                x1 <= iw <= canvas::MAX_SIDE,
                y1 <= ih <= canvas::MAX_SIDE,
                x1 <= x + w,
                y1 <= y + h,
                forall|a: int, b: int| #[trigger]
                    img@.px(a, b) == (if b < yy || (b == yy && a < xx) {
                        goal.px(a, b)
                    } else {
                        before.px(a, b)
                    }),
            decreases x1 - xx,
        {
            put_blend(img, xx, yy, c);
            xx += 1;
        }
        yy += 1;
    }
    proof {
        canvas::lemma_same(img@, goal);
    }
}

/// How far a row of GUI pixels is from an edge, below or above it.
pub open spec fn edge_distance(gy: int, edge: int, downward: bool) -> int {
    if downward {
        gy - edge
    } else {
        edge - 1 - gy
    }
}

/// A black that fades with the distance from an edge.
pub open spec fn fading(d: int, depth: int) -> Rgba {
    Rgba { r: 0, g: 0, b: 0, a: (255 - d * 255 / depth) as u8 }
}

/// A picture with a shadow along an edge.
pub open spec fn with_edge(
    p: Picture,
    w: int,
    edge: int,
    depth: int,
    scale: int,
    downward: bool,
) -> Picture {
    p.plotted(
        |x: int, y: int, old: Rgba|
            {
                let d = edge_distance(y / scale, edge, downward);
                if x < w * scale && 0 <= d < depth {
                    canvas::blended(fading(d, depth), old)
                } else {
                    old
                }
            },
    )
}

/// Draws a shadow along an edge.
pub fn shadow_edge(img: &mut Canvas, w: u32, edge: u32, depth: u32, scale: u32, downward: bool)
    requires
        old(img).wf(),
        0 < scale <= MAX_SCALE,
        0 < depth <= 255,
        w <= canvas::MAX_SIDE,
        edge + depth <= canvas::MAX_SIDE,
        !downward ==> edge >= depth,
    ensures
        final(img).wf(),
        final(img)@ == with_edge(
            old(img)@,
            w as int,
            edge as int,
            depth as int,
            scale as int,
            downward,
        ),
{
    let ghost before = img@;
    let ghost s = scale as int;
    let ghost goal = with_edge(before, w as int, edge as int, depth as int, s, downward);
    let mut d: u32 = 0;
    proof {
        lemma_cell_bound(w as int, s);
    }
    let wide: i64 = w as i64 * scale as i64;
    while d < depth
        invariant
            s == scale,
            0 < scale <= MAX_SCALE,
            0 < depth <= 255,
            d <= depth,
            edge + depth <= canvas::MAX_SIDE,
            !downward ==> edge >= depth,
            wide == w * s,
            0 <= wide <= 0x8_0000_0000_0000,
            goal == with_edge(before, w as int, edge as int, depth as int, s, downward),
            img.wf(),
            img@.w == before.w,
            img@.h == before.h,
            forall|a: int, b: int| #[trigger]
                img@.px(a, b) == (if 0 <= edge_distance(b / s, edge as int, downward) < d {
                    goal.px(a, b)
                } else {
                    before.px(a, b)
                }),
        decreases depth - d,
    {
        assert(0 <= d * 255 / (depth as int) <= 255) by (nonlinear_arith)
            requires
                0 <= d < depth,
        ;
        let a: u8 = (255 - d * 255 / depth) as u8;
        let gy: u32 = if downward {
            edge + d
        } else {
            edge - 1 - d
        };
        let ghost prior = img@;
        proof {
            lemma_cell_bound(gy as int, s);
        }
        blend_rect(
            img,
            0,
            gy as i64 * scale as i64,
            wide,
            scale as i64,
            Rgba { r: 0, g: 0, b: 0, a },
        );
        proof {
            assert forall|x: int, y: int| #[trigger]
                img@.px(x, y) == (if 0 <= edge_distance(y / s, edge as int, downward) < d + 1 {
                    goal.px(x, y)
                } else {
                    before.px(x, y)
                }) by {
                assert(prior.px(x, y) == (if 0 <= edge_distance(y / s, edge as int, downward) < d {
                    goal.px(x, y)
                } else {
                    before.px(x, y)
                }));
                canvas::lemma_cell(y, 0, gy as int, s);
            }
        }
        d += 1;
    }
    proof {
        canvas::lemma_same(img@, goal);
    }
}

/// The column of the button's picture that shows at the column `gx` of a button of width `w`: the
/// left half shows the left end of the picture, the right half the right end.
pub open spec fn button_column(tex_w: int, w: int, gx: int) -> int {
    if gx < w / 2 {
        gx
    } else {
        tex_w - w + gx
    }
}

/// A picture with a button without its text.
pub open spec fn with_button_face(
    p: Picture,
    tex: Picture,
    x: int,
    y: int,
    w: int,
    scale: int,
) -> Picture {
    celled(
        p,
        scale,
        x,
        y,
        w,
        20,
        |gx: int, gy: int, old: Rgba|
            canvas::blended(tex.px(button_column(tex.w, w, gx - x), gy - y), old),
    )
}

/// Draws a button without its text.
fn draw_button_face(img: &mut Canvas, tex: &Canvas, x: u32, y: u32, w: u32, scale: u32)
    requires
        old(img).wf(),
        tex.wf(),
        tex@.h >= 20,
        w <= 2 * tex@.w,
        w - w / 2 <= tex@.w,
        0 < scale <= MAX_SCALE,
        x + w <= canvas::MAX_SIDE,
        y + 20 <= canvas::MAX_SIDE,
    ensures
        final(img).wf(),
        final(img)@ == with_button_face(
            old(img)@,
            tex@,
            x as int,
            y as int,
            w as int,
            scale as int,
        ),
{
    let ghost before = img@;
    let ghost s = scale as int;
    let ghost goal = with_button_face(before, tex@, x as int, y as int, w as int, s);
    let tw: u32 = tex.width();
    let th: u32 = tex.height();
    let mut gy: u32 = 0;
    while gy < 20
        invariant
            tex.wf(),
            tw == tex@.w,
            th == tex@.h >= 20,
            w <= 2 * tw,
            w - w / 2 <= tw <= canvas::MAX_SIDE,
            s == scale,
            0 < scale <= MAX_SCALE,
            x + w <= canvas::MAX_SIDE,
            y + 20 <= canvas::MAX_SIDE,
            gy <= 20,
            goal == with_button_face(before, tex@, x as int, y as int, w as int, s),
            img.wf(),
            img@.w == before.w,
            img@.h == before.h,
            forall|a: int, b: int| #[trigger]
                img@.px(a, b) == (if b / s < y + gy {
                    goal.px(a, b)
                } else {
                    before.px(a, b)
                }),
        decreases 20 - gy,
    {
        let mut gx: u32 = 0;
        while gx < w
            invariant
                tex.wf(),
                tw == tex@.w,
                th == tex@.h >= 20,
                w <= 2 * tw,
                w - w / 2 <= tw <= canvas::MAX_SIDE,
                s == scale,
                0 < scale <= MAX_SCALE,
                x + w <= canvas::MAX_SIDE,
                y + 20 <= canvas::MAX_SIDE,
                gy < 20,
                gx <= w,
                goal == with_button_face(before, tex@, x as int, y as int, w as int, s),
                img.wf(),
                img@.w == before.w,
                img@.h == before.h,
                forall|a: int, b: int| #[trigger]
                    img@.px(a, b) == (if b / s < y + gy || (b / s == y + gy && a / s < x + gx) {
                        goal.px(a, b)
                    } else {
                        before.px(a, b)
                    }),
            decreases w - gx,
        {
            let u: u32 = if gx < w / 2 {
                gx
            } else {
                tw - (w - w / 2) + (gx - w / 2)
            };
            let c = tex.get(u, gy);
            let ghost prior = img@;
            proof {
                lemma_cell_bound((x + gx) as int, s);
                lemma_cell_bound((y + gy) as int, s);
            }
            blend_rect(
                img,
                (x + gx) as i64 * scale as i64,
                (y + gy) as i64 * scale as i64,
                scale as i64,
                scale as i64,
                c,
            );
            proof {
                assert forall|a: int, b: int| #[trigger]
                    img@.px(a, b) == (if b / s < y + gy || (b / s == y + gy && a / s < x + gx + 1) {
                        goal.px(a, b)
                    } else {
                        before.px(a, b)
                    }) by {
                    assert(prior.px(a, b) == (if b / s < y + gy || (b / s == y + gy && a / s < x
                        + gx) {
                        goal.px(a, b)
                    } else {
                        before.px(a, b)
                    }));
                    canvas::lemma_cell(a, 0, x + gx, s);
                    canvas::lemma_cell(b, 0, y + gy, s);
                }
            }
            gx += 1;
        }
        proof {
            assert forall|a: int, b: int| #[trigger]
                img@.px(a, b) == (if b / s < y + gy + 1 {
                    goal.px(a, b)
                } else {
                    before.px(a, b)
                }) by {}
        }
        gy += 1;
    }
    proof {
        canvas::lemma_same(img@, goal);
    }
}

/// Half of `n`, towards zero.
pub open spec fn half(n: int) -> int {
    if n >= 0 {
        n / 2
    } else {
        -((-n) / 2)
    }
}

/// Half of `n`, towards zero.
pub fn half_of(n: i64) -> (r: i64)
    requires
        -canvas::MAX_COORD <= n <= canvas::MAX_COORD,
    ensures
        r == half(n as int),
        -canvas::MAX_COORD <= r <= canvas::MAX_COORD,
{
    if n >= 0 {
        n / 2
    } else {
        -((-n) / 2)
    }
}

/// A picture with a button and its text in white, centred.
pub open spec fn with_button(
    p: Picture,
    look: Look,
    tex: Picture,
    x: int,
    y: int,
    w: int,
    label: Seq<char>,
) -> Picture {
    let s = look.opts.scale as int;
    let spans = info::plain_line(label);
    draw::with_block(
        with_button_face(p, tex, x, y, w, s),
        Look { fg: (255, 255, 255), ..look },
        x * s + half(w * s - layout::measured(spans, look.font, s)),
        y * s + 6 * s,
        spans,
        w,
        1,
    )
}

/// Draws a button with its text.
pub fn draw_button(img: &mut Canvas, ctx: &Ctx, tex: &Canvas, x: u32, y: u32, w: u32, label: &str)
    requires
        old(img).wf(),
        ctx.wf(),
        0 < ctx.opts.scale,
        tex.wf(),
        tex@.h >= 20,
        w <= 2 * tex@.w,
        w - w / 2 <= tex@.w,
        x + w <= canvas::MAX_SIDE,
        y + 20 <= canvas::MAX_SIDE,
        label@.len() <= MAX_CHARS,
    ensures
        final(img).wf(),
        final(img)@.w == old(img)@.w,
        final(img)@.h == old(img)@.h,
        final(img)@ == with_button(
            old(img)@,
            ctx.look(),
            tex@,
            x as int,
            y as int,
            w as int,
            label@,
        ),
{
    let s: u32 = ctx.opts.scale;
    draw_button_face(img, tex, x, y, w, s);
    let spans = line_spans(label);
    proof {
        info::lemma_plain_line(label@);
        lemma_cell_bound(x as int, s as int);
        lemma_cell_bound(y as int, s as int);
        lemma_cell_bound(w as int, s as int);
    }
    let lw: i64 = measure_dev(ctx.font, spans.as_slice(), s) as i64;
    let lx: i64 = x as i64 * s as i64 + half_of(w as i64 * s as i64 - lw);
    let ly: i64 = y as i64 * s as i64 + 6 * s as i64;
    let white = Ctx { font: ctx.font, opts: ctx.opts, fg: (255, 255, 255) };
    draw_block_dev(img, &white, lx, ly, spans.as_slice(), w, 1);
}

/// The icon of a server is the picture that its status carries; there is none where the status has
/// none, or one that cannot be read.
pub proof fn icons_are_what_the_status_carries(
    s: StatusView,
    data: Seq<char>,
    file: Seq<u8>,
    w: nat,
    h: nat,
    raw: Seq<u8>,
)
    ensures
        s.favicon is None ==> icon_of(s) is None,
        s.favicon == Some(data) && outside::base64_of(
            vstd::utf8::encode_utf8(status::favicon_text(data)),
        ) is None ==> icon_of(s) is None,
        s.favicon == Some(data) && outside::base64_of(
            vstd::utf8::encode_utf8(status::favicon_text(data)),
        ) == Some(file) && file.len() > 0 && outside::image_of(file) == Some((w, h, raw)) && 1 <= w
            <= canvas::MAX_SIDE && 1 <= h <= canvas::MAX_SIDE ==> icon_of(s) == Some(
            canvas::from_raw(w as int, h as int, raw),
        ),
{
}

} // verus!
