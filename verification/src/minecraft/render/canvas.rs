//! Pixel pictures and the ways to paint on them.

use vstd::prelude::*;

verus! {

/// A pixel with its opacity.
#[derive(Debug, Clone, Copy, PartialEq, Eq, Structural)]
pub struct Rgba {
    pub r: u8,
    pub g: u8,
    pub b: u8,
    pub a: u8,
}

/// The largest side of a picture.
pub const MAX_SIDE: u32 = 0x7FFF_FFFF;

/// The largest distance from the origin at which something may be painted.
pub const MAX_COORD: i64 = 0x2000_0000_0000_0000;

/// A picture: its sides, and a pixel for each place.
#[verifier::ext_equal]
pub struct Picture {
    pub w: int,
    pub h: int,
    pub at: spec_fn(int, int) -> Rgba,
}

/// A picture in memory.
#[derive(Debug)]
pub struct Canvas {
    width: u32,
    height: u32,
    px: Vec<Rgba>,
}

/// The pixel of an empty place.
pub open spec fn clear() -> Rgba {
    Rgba { r: 0, g: 0, b: 0, a: 0 }
}

/// An opaque pixel.
pub open spec fn solid(r: u8, g: u8, b: u8) -> Rgba {
    Rgba { r, g, b, a: 255 }
}

/// A picture of these sides can be held in memory.
pub open spec fn fits(w: int, h: int) -> bool {
    0 <= w <= MAX_SIDE && 0 <= h <= MAX_SIDE && 4 * (w * h) <= usize::MAX
}

/// The place is within the rectangle.
pub open spec fn in_rect(x: int, y: int, left: int, top: int, w: int, h: int) -> bool {
    left <= x < left + w && top <= y < top + h
}

impl Picture {
    /// The pixel at a place.
    pub open spec fn px(self, x: int, y: int) -> Rgba {
        (self.at)(x, y)
    }

    /// The place is within the picture.
    pub open spec fn inside(self, x: int, y: int) -> bool {
        0 <= x < self.w && 0 <= y < self.h
    }

    /// The picture with each of its places given by its former pixel and its place.
    pub open spec fn plotted(self, f: spec_fn(int, int, Rgba) -> Rgba) -> Picture {
        Picture {
            w: self.w,
            h: self.h,
            at: |x: int, y: int|
                if self.inside(x, y) {
                    f(x, y, self.px(x, y))
                } else {
                    self.px(x, y)
                },
        }
    }

    /// The picture with all places of a region in one colour.
    pub open spec fn painted(self, region: spec_fn(int, int) -> bool, c: Rgba) -> Picture {
        self.plotted(
            |x: int, y: int, old: Rgba|
                if region(x, y) {
                    c
                } else {
                    old
                },
        )
    }

    /// The picture with a rectangle in one colour.
    pub open spec fn filled(self, left: int, top: int, w: int, h: int, c: Rgba) -> Picture {
        self.painted(|x: int, y: int| in_rect(x, y, left, top, w, h), c)
    }

    /// The picture with one place changed.
    pub open spec fn with(self, x: int, y: int, c: Rgba) -> Picture {
        self.painted(|a: int, b: int| a == x && b == y, c)
    }
}

/// A picture of one colour.
pub open spec fn plain(w: int, h: int, c: Rgba) -> Picture {
    Picture {
        w,
        h,
        at: |x: int, y: int|
            if 0 <= x < w && 0 <= y < h {
                c
            } else {
                clear()
            },
    }
}

/// Pictures with the same sides and the same pixels are the same.
pub proof fn lemma_same(a: Picture, b: Picture)
    requires
        a.w == b.w,
        a.h == b.h,
        forall|x: int, y: int| #[trigger] a.px(x, y) == b.px(x, y),
    ensures
        a == b,
{
    assert forall|x: int, y: int| #[trigger] (a.at)(x, y) == (b.at)(x, y) by {
        assert(a.px(x, y) == b.px(x, y));
    }
    assert(a.at =~= b.at);
    assert(a =~= b);
}

proof fn lemma_index(w: int, h: int, x: int, y: int)
    requires
        0 <= x < w,
        0 <= y < h,
    ensures
        0 <= y * w + x < w * h,
        0 <= y * w,
{
    assert(0 <= y * w + x < w * h && 0 <= y * w) by (nonlinear_arith)
        requires
            0 <= x < w,
            0 <= y < h,
    ;
}

proof fn lemma_index_unique(w: int, x: int, y: int, a: int, b: int)
    requires
        0 <= x < w,
        0 <= a < w,
        y * w + x == b * w + a,
    ensures
        x == a,
        y == b,
{
    assert(y == b) by (nonlinear_arith)
        requires
            0 <= x < w,
            0 <= a < w,
            y * w + x == b * w + a,
    ;
}

/// Whether a picture of these sides can be held in memory.
pub fn is_holdable(w: u64, h: u64) -> (r: bool)
    ensures
        r == fits(w as int, h as int),
{
    if w > MAX_SIDE as u64 || h > MAX_SIDE as u64 {
        return false;
    }
    assert(0 <= w * h <= 0x7FFF_FFFF * 0x7FFF_FFFF) by (nonlinear_arith)
        requires
            0 <= w <= 0x7FFF_FFFF,
            0 <= h <= 0x7FFF_FFFF,
    ;
    4 * (w as u128 * h as u128) <= usize::MAX as u128
}

/// A picture that is no larger can be held too.
pub proof fn lemma_smaller_fits(w: int, h: int, w2: int, h2: int)
    requires
        fits(w, h),
        0 <= w2 <= w,
        0 <= h2 <= h,
    ensures
        fits(w2, h2),
{
    assert(w2 * h2 <= w * h) by (nonlinear_arith)
        requires
            0 <= w2 <= w,
            0 <= h2 <= h,
    ;
}

impl Canvas {
    /// There is a pixel for each place.
    pub closed spec fn wf(self) -> bool {
        &&& self.px@.len() == self.width * self.height
        &&& fits(self.width as int, self.height as int)
    }

    /// The picture.
    pub closed spec fn view(&self) -> Picture {
        Picture {
            w: self.width as int,
            h: self.height as int,
            at: |x: int, y: int|
                if 0 <= x < self.width && 0 <= y < self.height {
                    self.px@[y * self.width + x]
                } else {
                    clear()
                },
        }
    }

    /// A picture of one colour.
    pub fn filled_with(width: u32, height: u32, c: Rgba) -> (r: Canvas)
        requires
            fits(width as int, height as int),
        ensures
            r.wf(),
            r@ == plain(width as int, height as int, c),
    {
        let mut px: Vec<Rgba> = Vec::new();
        assert(width * height <= usize::MAX) by (nonlinear_arith)
            requires
                fits(width as int, height as int),
        ;
        let n: usize = (width as u64 * height as u64) as usize;
        px.resize(n, c);
        let r = Canvas { width, height, px };
        proof {
            assert forall|x: int, y: int| #[trigger] r@.px(x, y) == plain(
                width as int,
                height as int,
                c,
            ).px(x, y) by {
                if 0 <= x < width && 0 <= y < height {
                    lemma_index(width as int, height as int, x, y);
                }
            }
            lemma_same(r@, plain(width as int, height as int, c));
        }
        r
    }

    /// The width of the picture.
    pub fn width(&self) -> (r: u32)
        requires
            self.wf(),
        ensures
            r == self@.w,
            r <= MAX_SIDE,
            fits(self@.w, self@.h),
    {
        self.width
    }

    /// The height of the picture.
    pub fn height(&self) -> (r: u32)
        requires
            self.wf(),
        ensures
            r == self@.h,
            r <= MAX_SIDE,
            fits(self@.w, self@.h),
    {
        self.height
    }

    /// The pixel at a place.
    pub fn get(&self, x: u32, y: u32) -> (r: Rgba)
        requires
            self.wf(),
            self@.inside(x as int, y as int),
        ensures
            r == self@.px(x as int, y as int),
    {
        proof {
            lemma_index(self.width as int, self.height as int, x as int, y as int);
            assert(self.width * self.height <= usize::MAX) by (nonlinear_arith)
                requires
                    fits(self.width as int, self.height as int),
            ;
        }
        let i: usize = (y as u64 * self.width as u64 + x as u64) as usize;
        self.px[i]
    }

    /// Changes the pixel at a place.
    pub fn put(&mut self, x: u32, y: u32, c: Rgba)
        requires
            old(self).wf(),
            old(self)@.inside(x as int, y as int),
        ensures
            final(self).wf(),
            final(self)@ == old(self)@.with(x as int, y as int, c),
    {
        proof {
            lemma_index(self.width as int, self.height as int, x as int, y as int);
            assert(self.width * self.height <= usize::MAX) by (nonlinear_arith)
                requires
                    fits(self.width as int, self.height as int),
            ;
        }
        let i: usize = (y as u64 * self.width as u64 + x as u64) as usize;
        self.px.set(i, c);
        proof {
            let before = old(self)@;
            assert forall|a: int, b: int| #[trigger] self@.px(a, b) == before.with(
                x as int,
                y as int,
                c,
            ).px(a, b) by {
                if 0 <= a < self.width && 0 <= b < self.height {
                    lemma_index(self.width as int, self.height as int, a, b);
                    if b * self.width + a == i {
                        lemma_index_unique(self.width as int, x as int, y as int, a, b);
                    }
                }
            }
            lemma_same(self@, before.with(x as int, y as int, c));
        }
    }
}

impl Canvas {
    /// Paints a rectangle; what lies outside the picture is left out.
    pub fn fill(&mut self, x: i64, y: i64, w: u32, h: u32, c: Rgba)
        requires
            old(self).wf(),
            -MAX_COORD <= x <= MAX_COORD,
            -MAX_COORD <= y <= MAX_COORD,
        ensures
            final(self).wf(),
            final(self)@ == old(self)@.filled(x as int, y as int, w as int, h as int, c),
    {
        let iw: i64 = self.width as i64;
        let ih: i64 = self.height as i64;
        let x0: i64 = if x < 0 {
            0
        } else {
            x
        };
        let y0: i64 = if y < 0 {
            0
        } else {
            y
        };
        let x1: i64 = if x + (w as i64) < iw {
            x + w as i64
        } else {
            iw
        };
        let y1: i64 = if y + (h as i64) < ih {
            y + h as i64
        } else {
            ih
        };
        let ghost before = self@;
        let mut yy: i64 = y0;
        while yy < y1
            invariant
                self.wf(),
                self@.w == before.w == iw,
                self@.h == before.h == ih,
                0 <= x0,
                0 <= y0 <= yy,
                yy <= y1 || yy == y0,
                x1 <= iw,
                y1 <= ih,
                iw <= MAX_SIDE,
                ih <= MAX_SIDE,
                forall|a: int, b: int| #[trigger]
                    self@.px(a, b) == (if x0 <= a < x1 && y0 <= b < yy && b < y1 {
                        c
                    } else {
                        before.px(a, b)
                    }),
            decreases y1 - yy,
        {
            let mut xx: i64 = x0;
            while xx < x1
                invariant
                    self.wf(),
                    self@.w == before.w == iw,
                    self@.h == before.h == ih,
                    0 <= x0 <= xx,
                    xx <= x1 || xx == x0,
                    0 <= y0 <= yy < y1,
                    x1 <= iw,
                    y1 <= ih,
                    iw <= MAX_SIDE,
                    ih <= MAX_SIDE,
                    forall|a: int, b: int| #[trigger]
                        self@.px(a, b) == (if x0 <= a < x1 && y0 <= b < y1 && (b < yy || (b == yy
                            && a < xx)) {
                            c
                        } else {
                            before.px(a, b)
                        }),
                decreases x1 - xx,
            {
                self.put(xx as u32, yy as u32, c);
                xx += 1;
            }
            yy += 1;
        }
        proof {
            lemma_same(self@, before.filled(x as int, y as int, w as int, h as int, c));
        }
    }
}

// ---- mixing ----

/// One channel over another, with an opacity.
pub open spec fn mixed(over: u8, under: u8, a: u8) -> u8 {
    ((over as int * a as int + under as int * (255 - a)) / 255) as u8
}

/// A pixel over an opaque one.
pub open spec fn blended(over: Rgba, under: Rgba) -> Rgba {
    if over.a == 0 {
        under
    } else if over.a == 255 {
        over
    } else {
        solid(
            mixed(over.r, under.r, over.a),
            mixed(over.g, under.g, over.a),
            mixed(over.b, under.b, over.a),
        )
    }
}

/// One channel over another, with an opacity.
fn mix(over: u8, under: u8, a: u8) -> (r: u8)
    ensures
        r == mixed(over, under, a),
{
    assert(0 <= over as int * a as int + under as int * (255 - a) <= 255 * 255)
        by (nonlinear_arith)
        requires
            0 <= over <= 255,
            0 <= under <= 255,
            0 <= a <= 255,
    ;
    assert(0 <= over as int * a as int <= 65025) by (nonlinear_arith)
        requires
            0 <= over <= 255,
            0 <= a <= 255,
    ;
    assert(0 <= under as int * (255 - a) <= 65025) by (nonlinear_arith)
        requires
            0 <= under <= 255,
            0 <= a <= 255,
    ;
    ((over as u32 * a as u32 + under as u32 * (255 - a as u32)) / 255) as u8
}

/// A pixel over an opaque one.
pub fn blend(over: Rgba, under: Rgba) -> (r: Rgba)
    ensures
        r == blended(over, under),
{
    if over.a == 0 {
        under
    } else if over.a == 255 {
        over
    } else {
        Rgba {
            r: mix(over.r, under.r, over.a),
            g: mix(over.g, under.g, over.a),
            b: mix(over.b, under.b, over.a),
            a: 255,
        }
    }
}

/// The colour of the checkerboard at a place.
pub open spec fn checker_at(x: int, y: int, cell: int) -> Rgba {
    if (x / cell + y / cell) % 2 == 0 {
        solid(60, 60, 64)
    } else {
        solid(42, 42, 46)
    }
}

/// The greater of two numbers.
pub open spec fn at_least(a: int, b: int) -> int {
    if a > b {
        a
    } else {
        b
    }
}

/// A picture over a checkerboard, which shows where the picture is not opaque.
pub open spec fn over_checker(p: Picture, cell: int) -> Picture {
    Picture {
        w: at_least(p.w, 1),
        h: at_least(p.h, 1),
        at: |x: int, y: int|
            if p.inside(x, y) {
                let base = checker_at(x, y, at_least(cell, 1));
                let over = p.px(x, y);
                solid(
                    mixed(over.r, base.r, over.a),
                    mixed(over.g, base.g, over.a),
                    mixed(over.b, base.b, over.a),
                )
            } else {
                clear()
            },
    }
}

/// The picture over a checkerboard with cells of the given side.
pub fn composite_over_checker(img: &Canvas, cell: u32) -> (r: Canvas)
    requires
        img.wf(),
        fits(at_least(img@.w, 1), at_least(img@.h, 1)),
    ensures
        r.wf(),
        r@ == over_checker(img@, cell as int),
{
    let side: u32 = if cell > 1 {
        cell
    } else {
        1
    };
    let w: u32 = img.width();
    let h: u32 = img.height();
    let mut out = Canvas::filled_with(
        if w > 1 {
            w
        } else {
            1
        },
        if h > 1 {
            h
        } else {
            1
        },
        Rgba { r: 0, g: 0, b: 0, a: 0 },
    );
    let ghost goal = over_checker(img@, cell as int);
    let mut y: u32 = 0;
    while y < h
        invariant
            img.wf(),
            img@.w == w,
            img@.h == h,
            side == at_least(cell as int, 1),
            goal == over_checker(img@, cell as int),
            out.wf(),
            out@.w == goal.w,
            out@.h == goal.h,
            y <= h,
            forall|a: int, b: int| #[trigger]
                out@.px(a, b) == (if img@.inside(a, b) && b < y {
                    goal.px(a, b)
                } else {
                    clear()
                }),
        decreases h - y,
    {
        let mut x: u32 = 0;
        while x < w
            invariant
                img.wf(),
                img@.w == w,
                img@.h == h,
                side == at_least(cell as int, 1),
                goal == over_checker(img@, cell as int),
                out.wf(),
                out@.w == goal.w,
                out@.h == goal.h,
                y < h,
                x <= w,
                forall|a: int, b: int| #[trigger]
                    out@.px(a, b) == (if img@.inside(a, b) && (b < y || (b == y && a < x)) {
                        goal.px(a, b)
                    } else {
                        clear()
                    }),
            decreases w - x,
        {
            let base = if (x as u64 / side as u64 + y as u64 / side as u64) % 2 == 0 {
                Rgba { r: 60, g: 60, b: 64, a: 255 }
            } else {
                Rgba { r: 42, g: 42, b: 46, a: 255 }
            };
            let over = img.get(x, y);
            out.put(
                x,
                y,
                Rgba {
                    r: mix(over.r, base.r, over.a),
                    g: mix(over.g, base.g, over.a),
                    b: mix(over.b, base.b, over.a),
                    a: 255,
                },
            );
            x += 1;
        }
        y += 1;
    }
    proof {
        lemma_same(out@, goal);
    }
    out
}

// ---- pictures on pictures ----

impl Picture {
    /// The picture with another one laid on it at a place.
    pub open spec fn pasted(self, other: Picture, left: int, top: int) -> Picture {
        self.plotted(
            |x: int, y: int, old: Rgba|
                if other.inside(x - left, y - top) {
                    other.px(x - left, y - top)
                } else {
                    old
                },
        )
    }

    /// The picture with another one laid on it, enlarged by a whole number; pixels that can hardly
    /// be seen are left out.
    pub open spec fn stamped(self, other: Picture, left: int, top: int, scale: int) -> Picture {
        self.plotted(
            |x: int, y: int, old: Rgba|
                {
                    let sx = (x - left) / scale;
                    let sy = (y - top) / scale;
                    if scale > 0 && other.inside(sx, sy) && other.px(sx, sy).a >= 8 {
                        other.px(sx, sy)
                    } else {
                        old
                    }
                },
        )
    }

    /// The picture with another one laid on it, brought to a square of the given side.
    pub open spec fn fitted(self, other: Picture, left: int, top: int, size: int) -> Picture {
        self.plotted(
            |x: int, y: int, old: Rgba|
                if in_rect(x, y, left, top, size, size) {
                    other.px((x - left) * other.w / size, (y - top) * other.h / size)
                } else {
                    old
                },
        )
    }

    /// The picture with an empty frame on it.
    pub open spec fn framed(self, left: int, top: int, size: int) -> Picture {
        self.plotted(
            |x: int, y: int, old: Rgba|
                if !in_rect(x, y, left, top, size, size) {
                    old
                } else if x == left || y == top || x == left + size - 1 || y == top + size - 1 {
                    solid(80, 80, 90)
                } else {
                    solid(40, 40, 48)
                },
        )
    }
}

/// A place lies in a cell exactly if its distance, in whole cells, is that of the cell.
pub proof fn lemma_cell(x: int, left: int, i: int, scale: int)
    requires
        scale > 0,
    ensures
        left + i * scale <= x < left + i * scale + scale <==> (x - left) / scale == i,
{
    let d = x - left;
    assert(i * scale <= d < i * scale + scale <==> d / scale == i) by (nonlinear_arith)
        requires
            scale > 0,
    ;
}

/// Lays a picture on another one, enlarged by a whole number.
pub fn blit_sprite(img: &mut Canvas, sprite: &Canvas, ox: i64, oy: i64, scale: u32)
    requires
        old(img).wf(),
        sprite.wf(),
        scale <= 0x10_0000,
        -0x1000_0000_0000_0000 <= ox <= 0x1000_0000_0000_0000,
        -0x1000_0000_0000_0000 <= oy <= 0x1000_0000_0000_0000,
    ensures
        final(img).wf(),
        final(img)@ == old(img)@.stamped(sprite@, ox as int, oy as int, scale as int),
{
    let ghost before = img@;
    let ghost goal = before.stamped(sprite@, ox as int, oy as int, scale as int);
    if scale == 0 {
        proof {
            lemma_same(img@, goal);
        }
        return;
    }
    let w: u32 = sprite.width();
    let h: u32 = sprite.height();
    let mut sy: u32 = 0;
    while sy < h
        invariant
            sprite.wf(),
            w == sprite@.w,
            h == sprite@.h,
            w <= MAX_SIDE,
            h <= MAX_SIDE,
            0 < scale <= 0x10_0000,
            -0x1000_0000_0000_0000 <= ox <= 0x1000_0000_0000_0000,
            -0x1000_0000_0000_0000 <= oy <= 0x1000_0000_0000_0000,
            goal == before.stamped(sprite@, ox as int, oy as int, scale as int),
            img.wf(),
            img@.w == before.w,
            img@.h == before.h,
            sy <= h,
            forall|a: int, b: int| #[trigger]
                img@.px(a, b) == (if (b - oy) / (scale as int) < sy {
                    goal.px(a, b)
                } else {
                    before.px(a, b)
                }),
        decreases h - sy,
    {
        let mut sx: u32 = 0;
        while sx < w
            invariant
                sprite.wf(),
                w == sprite@.w,
                h == sprite@.h,
                w <= MAX_SIDE,
                h <= MAX_SIDE,
                0 < scale <= 0x10_0000,
                -0x1000_0000_0000_0000 <= ox <= 0x1000_0000_0000_0000,
                -0x1000_0000_0000_0000 <= oy <= 0x1000_0000_0000_0000,
                goal == before.stamped(sprite@, ox as int, oy as int, scale as int),
                img.wf(),
                img@.w == before.w,
                img@.h == before.h,
                sy < h,
                sx <= w,
                forall|a: int, b: int| #[trigger]
                    img@.px(a, b) == (if (b - oy) / (scale as int) < sy || ((b - oy) / (scale as int)
                        == sy && (a - ox) / (scale as int) < sx) {
                        goal.px(a, b)
                    } else {
                        before.px(a, b)
                    }),
            decreases w - sx,
        {
            let c = sprite.get(sx, sy);
            let ghost prior = img@;
            proof {
                lemma_offset(sx as int, scale as int);
                lemma_offset(sy as int, scale as int);
            }
            if c.a >= 8 {
                img.fill(
                    ox + sx as i64 * scale as i64,
                    oy + sy as i64 * scale as i64,
                    scale,
                    scale,
                    c,
                );
            }
            proof {
                assert forall|a: int, b: int| #[trigger]
                    img@.px(a, b) == (if (b - oy) / (scale as int) < sy || ((b - oy) / (scale as int)
                        == sy && (a - ox) / (scale as int) < sx + 1) {
                        goal.px(a, b)
                    } else {
                        before.px(a, b)
                    }) by {
                    assert(prior.px(a, b) == (if (b - oy) / (scale as int) < sy || ((b - oy) / (
                    scale as int) == sy && (a - ox) / (scale as int) < sx) {
                        goal.px(a, b)
                    } else {
                        before.px(a, b)
                    }));
                    lemma_cell(a, ox as int, sx as int, scale as int);
                    lemma_cell(b, oy as int, sy as int, scale as int);
                }
            }
            sx += 1;
        }
        proof {
            assert forall|a: int, b: int| #[trigger]
                img@.px(a, b) == (if (b - oy) / (scale as int) < sy + 1 {
                    goal.px(a, b)
                } else {
                    before.px(a, b)
                }) by {}
        }
        sy += 1;
    }
    proof {
        lemma_same(img@, goal);
    }
}

proof fn lemma_offset(i: int, scale: int)
    requires
        0 <= i <= MAX_SIDE,
        0 <= scale <= 0x10_0000,
    ensures
        0 <= i * scale <= 0x8_0000_0000_0000,
{
    assert(0 <= i * scale <= 0x8_0000_0000_0000) by (nonlinear_arith)
        requires
            0 <= i <= 0x7FFF_FFFF,
            0 <= scale <= 0x10_0000,
    ;
}

proof fn lemma_part(i: int, n: int, size: int)
    requires
        0 <= i < size,
        1 <= n,
    ensures
        0 <= i * n / size < n,
{
    assert(0 <= i * n / size < n) by (nonlinear_arith)
        requires
            0 <= i < size,
            1 <= n,
    ;
}

/// Lays a picture on another one, brought to a square of the given side.
pub fn blit_favicon(img: &mut Canvas, fav: &Canvas, ox: u32, oy: u32, size: u32)
    requires
        old(img).wf(),
        fav.wf(),
        fav@.w >= 1,
        fav@.h >= 1,
    ensures
        final(img).wf(),
        final(img)@ == old(img)@.fitted(fav@, ox as int, oy as int, size as int),
{
    let ghost before = img@;
    let ghost goal = before.fitted(fav@, ox as int, oy as int, size as int);
    let fw: u32 = fav.width();
    let fh: u32 = fav.height();
    let iw: u32 = img.width();
    let ih: u32 = img.height();
    let mut sy: u32 = 0;
    while sy < size
        invariant
            fav.wf(),
            fw == fav@.w >= 1,
            fh == fav@.h >= 1,
            fw <= MAX_SIDE,
            fh <= MAX_SIDE,
            goal == before.fitted(fav@, ox as int, oy as int, size as int),
            img.wf(),
            img@.w == before.w == iw,
            img@.h == before.h == ih,
            sy <= size,
            forall|a: int, b: int| #[trigger]
                img@.px(a, b) == (if b < oy + sy {
                    goal.px(a, b)
                } else {
                    before.px(a, b)
                }),
        decreases size - sy,
    {
        let mut sx: u32 = 0;
        while sx < size
            invariant
                fav.wf(),
                fw == fav@.w >= 1,
                fh == fav@.h >= 1,
                fw <= MAX_SIDE,
                fh <= MAX_SIDE,
                goal == before.fitted(fav@, ox as int, oy as int, size as int),
                img.wf(),
                img@.w == before.w == iw,
                img@.h == before.h == ih,
                sy < size,
                sx <= size,
                forall|a: int, b: int| #[trigger]
                    img@.px(a, b) == (if b < oy + sy || (b == oy + sy && a < ox + sx) {
                        goal.px(a, b)
                    } else {
                        before.px(a, b)
                    }),
            decreases size - sx,
        {
            proof {
                lemma_part(sx as int, fw as int, size as int);
                lemma_part(sy as int, fh as int, size as int);
                assert(0 <= sx * fw <= 0xFFFF_FFFF * 0x7FFF_FFFF) by (nonlinear_arith)
                    requires
                        0 <= sx <= 0xFFFF_FFFF,
                        0 <= fw <= 0x7FFF_FFFF,
                ;
                assert(0 <= sy * fh <= 0xFFFF_FFFF * 0x7FFF_FFFF) by (nonlinear_arith)
                    requires
                        0 <= sy <= 0xFFFF_FFFF,
                        0 <= fh <= 0x7FFF_FFFF,
                ;
            }
            let px: u32 = (sx as u64 * fw as u64 / size as u64) as u32;
            let py: u32 = (sy as u64 * fh as u64 / size as u64) as u32;
            let c = fav.get(px, py);
            let xx: u64 = ox as u64 + sx as u64;
            let yy: u64 = oy as u64 + sy as u64;
            if xx < iw as u64 && yy < ih as u64 {
                img.put(xx as u32, yy as u32, c);
            }
            sx += 1;
        }
        sy += 1;
    }
    proof {
        lemma_same(img@, goal);
    }
}

/// Draws the frame that stands for a missing icon.
pub fn placeholder_icon(img: &mut Canvas, ox: u32, oy: u32, size: u32)
    requires
        old(img).wf(),
    ensures
        final(img).wf(),
        final(img)@ == old(img)@.framed(ox as int, oy as int, size as int),
{
    let ghost before = img@;
    let ghost goal = before.framed(ox as int, oy as int, size as int);
    let iw: u32 = img.width();
    let ih: u32 = img.height();
    let mut sy: u32 = 0;
    while sy < size
        invariant
            goal == before.framed(ox as int, oy as int, size as int),
            img.wf(),
            img@.w == before.w == iw,
            img@.h == before.h == ih,
            sy <= size,
            forall|a: int, b: int| #[trigger]
                img@.px(a, b) == (if b < oy + sy {
                    goal.px(a, b)
                } else {
                    before.px(a, b)
                }),
        decreases size - sy,
    {
        let mut sx: u32 = 0;
        while sx < size
            invariant
                goal == before.framed(ox as int, oy as int, size as int),
                img.wf(),
                img@.w == before.w == iw,
                img@.h == before.h == ih,
                sy < size,
                sx <= size,
                forall|a: int, b: int| #[trigger]
                    img@.px(a, b) == (if b < oy + sy || (b == oy + sy && a < ox + sx) {
                        goal.px(a, b)
                    } else {
                        before.px(a, b)
                    }),
            decreases size - sx,
        {
            let edge = sx == 0 || sy == 0 || sx == size - 1 || sy == size - 1;
            let c = if edge {
                Rgba { r: 80, g: 80, b: 90, a: 255 }
            } else {
                Rgba { r: 40, g: 40, b: 48, a: 255 }
            };
            let xx: u64 = ox as u64 + sx as u64;
            let yy: u64 = oy as u64 + sy as u64;
            if xx < iw as u64 && yy < ih as u64 {
                img.put(xx as u32, yy as u32, c);
            }
            sx += 1;
        }
        sy += 1;
    }
    proof {
        lemma_same(img@, goal);
    }
}

// ---- stacking ----

/// The pictures in memory.
pub open spec fn pictures(list: Seq<Canvas>) -> Seq<Picture> {
    Seq::new(list.len(), |i: int| list[i]@)
}

/// The greatest width, at least one.
pub open spec fn widest(list: Seq<Picture>) -> int
    decreases list.len(),
{
    if list.len() == 0 {
        1
    } else {
        at_least(widest(list.drop_last()), list.last().w)
    }
}

/// How far below the first picture the next one after `list` stands.
pub open spec fn next_top(list: Seq<Picture>, gap: int) -> int
    decreases list.len(),
{
    if list.len() == 0 {
        0
    } else {
        next_top(list.drop_last(), gap) + list.last().h + gap
    }
}

/// The height of the pictures with gaps between them.
pub open spec fn stack_height(list: Seq<Picture>, gap: int) -> int {
    if list.len() == 0 {
        1
    } else {
        at_least(next_top(list, gap) - gap, 1)
    }
}

/// The pictures laid below each other on a ground.
pub open spec fn laid_on(ground: Picture, list: Seq<Picture>, gap: int) -> Picture
    decreases list.len(),
{
    if list.len() == 0 {
        ground
    } else {
        laid_on(ground, list.drop_last(), gap).pasted(
            list.last(),
            0,
            next_top(list.drop_last(), gap),
        )
    }
}

/// The pictures below each other on one colour.
pub open spec fn stacked(list: Seq<Picture>, gap: int, bg: Rgba) -> Picture {
    laid_on(plain(widest(list), stack_height(list, gap), bg), list, gap)
}

proof fn lemma_stack_prefix(list: Seq<Picture>, k: nat, gap: int)
    requires
        k <= list.len(),
        gap >= 0,
        forall|i: int| 0 <= i < list.len() ==> (#[trigger] list[i]).h >= 0 && list[i].w >= 0,
    ensures
        0 <= next_top(list.take(k as int), gap) <= next_top(list, gap),
        forall|i: int| 0 <= i < k ==> (#[trigger] list[i]).w <= widest(list),
        k < list.len() ==> next_top(list.take(k as int), gap) + list[k as int].h + gap
            <= next_top(list, gap),
        1 <= widest(list.take(k as int)) <= widest(list),
        next_top(list.take(k as int), gap) >= k * gap,
    decreases list.len(),
{
    if k == list.len() {
        assert(list.take(k as int) =~= list);
        if k > 0 {
            assert(list.drop_last().take(k - 1) =~= list.drop_last());
            lemma_stack_prefix(list.drop_last(), (k - 1) as nat, gap);
            assert forall|i: int| 0 <= i < k implies (#[trigger] list[i]).w <= widest(list) by {
                if i < k - 1 {
                    assert(list.drop_last()[i] == list[i]);
                }
            }
            assert((k - 1) * gap + gap == k * gap) by (nonlinear_arith);
            assert(list[list.len() - 1].h >= 0);
        }
    } else {
        assert(list.drop_last().take(k as int) =~= list.take(k as int));
        lemma_stack_prefix(list.drop_last(), k, gap);
        assert forall|i: int| 0 <= i < k implies (#[trigger] list[i]).w <= widest(list) by {
            assert(list.drop_last()[i] == list[i]);
        }
        assert(list[list.len() - 1].h >= 0);
        if k < list.len() - 1 {
            assert(list.drop_last()[k as int] == list[k as int]);
        }
    }
}

impl Canvas {
    /// Lays a picture at the left edge, `top` below the upper one; it must lie within.
    fn paste(&mut self, other: &Canvas, top: u32)
        requires
            old(self).wf(),
            other.wf(),
            other@.w <= old(self)@.w,
            top + other@.h <= old(self)@.h,
        ensures
            final(self).wf(),
            final(self)@ == old(self)@.pasted(other@, 0, top as int),
    {
        let ghost before = self@;
        let ghost goal = before.pasted(other@, 0, top as int);
        let w: u32 = other.width();
        let h: u32 = other.height();
        let mut y: u32 = 0;
        while y < h
            invariant
                other.wf(),
                w == other@.w <= before.w,
                h == other@.h,
                top + h <= before.h <= MAX_SIDE,
                goal == before.pasted(other@, 0, top as int),
                self.wf(),
                self@.w == before.w,
                self@.h == before.h,
                y <= h,
                forall|a: int, b: int| #[trigger]
                    self@.px(a, b) == (if b < top + y {
                        goal.px(a, b)
                    } else {
                        before.px(a, b)
                    }),
            decreases h - y,
        {
            let mut x: u32 = 0;
            while x < w
                invariant
                    other.wf(),
                    w == other@.w <= before.w,
                    h == other@.h,
                    top + h <= before.h <= MAX_SIDE,
                    goal == before.pasted(other@, 0, top as int),
                    self.wf(),
                    self@.w == before.w,
                    self@.h == before.h,
                    y < h,
                    x <= w,
                    forall|a: int, b: int| #[trigger]
                        self@.px(a, b) == (if b < top + y || (b == top + y && a < x) {
                            goal.px(a, b)
                        } else {
                            before.px(a, b)
                        }),
                decreases w - x,
            {
                let c = other.get(x, y);
                self.put(x, top + y, c);
                x += 1;
            }
            y += 1;
        }
        proof {
            lemma_same(self@, goal);
        }
    }
}

/// All the pictures below each other, with gaps between them.
pub fn stack_vertical(imgs: &[Canvas], gap: u32, bg: Rgba) -> (r: Canvas)
    requires
        forall|i: int| 0 <= i < imgs@.len() ==> (#[trigger] imgs@[i]).wf(),
        fits(widest(pictures(imgs@)), stack_height(pictures(imgs@), gap as int)),
    ensures
        r.wf(),
        r@ == stacked(pictures(imgs@), gap as int, bg),
{
    let ghost all = pictures(imgs@);
    let n: usize = imgs.len();
    let mut width: u32 = 1;
    let mut total: u64 = 0;
    proof {
        assert forall|i: int| 0 <= i < all.len() implies (#[trigger] all[i]).h >= 0 && all[i].w
            >= 0 by {
            assert(imgs@[i].wf());
        }
        assert(all.take(0) =~= Seq::empty());
        if n > 0 {
            lemma_stack_prefix(all, (n - 1) as nat, gap as int);
        }
    }
    for i in 0..n
        invariant
            n == imgs@.len(),
            all == pictures(imgs@),
            forall|k: int| 0 <= k < imgs@.len() ==> (#[trigger] imgs@[k]).wf(),
            forall|k: int| 0 <= k < all.len() ==> (#[trigger] all[k]).h >= 0 && all[k].w >= 0,
            next_top(all, gap as int) - gap <= MAX_SIDE,
            width == widest(all.take(i as int)),
            total == next_top(all.take(i as int), gap as int),
    {
        proof {
            lemma_stack_prefix(all, i as nat, gap as int);
            assert(all.take(i + 1).drop_last() =~= all.take(i as int));
            assert(all.take(i + 1).last() == imgs@[i as int]@);
            assert(all[i as int] == imgs@[i as int]@);
        }
        let w: u32 = imgs[i].width();
        let h: u32 = imgs[i].height();
        if w > width {
            width = w;
        }
        total = total + h as u64 + gap as u64;
    }
    assert(all.take(n as int) =~= all);
    let height: u64 = if n == 0 {
        1
    } else if total - gap as u64 > 1 {
        total - gap as u64
    } else {
        1
    };
    let mut out = Canvas::filled_with(width, height as u32, bg);
    let ghost ground = out@;
    let mut top: u64 = 0;
    assert(all.take(0) =~= Seq::empty());
    for i in 0..n
        invariant
            n == imgs@.len(),
            all == pictures(imgs@),
            forall|k: int| 0 <= k < imgs@.len() ==> (#[trigger] imgs@[k]).wf(),
            forall|k: int| 0 <= k < all.len() ==> (#[trigger] all[k]).h >= 0 && all[k].w >= 0,
            next_top(all, gap as int) - gap <= MAX_SIDE,
            out.wf(),
            out@.w == widest(all),
            out@.h == height,
            n > 0 ==> height >= next_top(all, gap as int) - gap,
            height <= MAX_SIDE,
            top == next_top(all.take(i as int), gap as int),
            out@ == laid_on(ground, all.take(i as int), gap as int),
    {
        proof {
            lemma_stack_prefix(all, i as nat, gap as int);
            lemma_stack_prefix(all, (i + 1) as nat, gap as int);
            assert(all.take(i + 1).drop_last() =~= all.take(i as int));
            assert(all.take(i + 1).last() == imgs@[i as int]@);
            assert(all[i as int] == imgs@[i as int]@);
        }
        let h: u32 = imgs[i].height();
        out.paste(&imgs[i], top as u32);
        top = top + h as u64 + gap as u64;
    }
    out
}

// ---- bytes ----

/// One of the four bytes of a pixel.
pub open spec fn channel(c: Rgba, i: int) -> u8 {
    if i == 0 {
        c.r
    } else if i == 1 {
        c.g
    } else if i == 2 {
        c.b
    } else {
        c.a
    }
}

/// The bytes of a picture: row by row, red, green, blue and opacity of each pixel.
pub open spec fn raw_bytes(p: Picture) -> Seq<u8> {
    Seq::new(
        (4 * (p.w * p.h)) as nat,
        |i: int| channel(p.px((i / 4) % p.w, (i / 4) / p.w), i % 4),
    )
}

/// The picture whose bytes start with these.
pub open spec fn from_raw(w: int, h: int, raw: Seq<u8>) -> Picture {
    Picture {
        w,
        h,
        at: |x: int, y: int|
            if 0 <= x < w && 0 <= y < h {
                let i = 4 * (y * w + x);
                Rgba { r: raw[i], g: raw[i + 1], b: raw[i + 2], a: raw[i + 3] }
            } else {
                clear()
            },
    }
}

proof fn lemma_place_of(k: int, w: int, h: int)
    requires
        0 <= k < w * h,
        0 <= w,
        0 <= h,
    ensures
        0 < w,
        0 <= k % w < w,
        0 <= k / w < h,
        (k / w) * w + k % w == k,
{
    assert(0 < w) by (nonlinear_arith)
        requires
            0 <= k < w * h,
            0 <= w,
            0 <= h,
    ;
    vstd::arithmetic::div_mod::lemma_fundamental_div_mod(k, w);
    assert(0 <= k % w < w && 0 <= k / w < h && (k / w) * w == w * (k / w)) by (nonlinear_arith)
        requires
            0 <= k < w * h,
            0 < w,
            k == w * (k / w) + k % w,
            0 <= h,
    ;
}

impl Canvas {
    /// The bytes of the picture.
    pub fn to_raw(&self) -> (r: Vec<u8>)
        requires
            self.wf(),
        ensures
            r@ == raw_bytes(self@),
            r@.len() == 4 * (self@.w * self@.h),
    {
        let mut out: Vec<u8> = Vec::new();
        let ghost goal = raw_bytes(self@);
        for k in 0..self.px.len()
            invariant
                self.wf(),
                goal == raw_bytes(self@),
                out@.len() == 4 * k,
                forall|i: int| 0 <= i < 4 * k ==> out@[i] == goal[i],
        {
            let c = self.px[k];
            proof {
                lemma_place_of(k as int, self.width as int, self.height as int);
                assert(self@.px(k as int % self.width as int, k as int / self.width as int) == c);
                assert(4 * k < goal.len());
                assert(goal[4 * k as int] == c.r);
                assert(goal[4 * k + 1] == c.g);
                assert(goal[4 * k + 2] == c.b);
                assert(goal[4 * k + 3] == c.a);
            }
            out.push(c.r);
            out.push(c.g);
            out.push(c.b);
            out.push(c.a);
        }
        assert(out@ =~= goal);
        out
    }

    /// The picture whose bytes start with these.
    pub fn from_bytes(w: u32, h: u32, raw: &Vec<u8>) -> (r: Canvas)
        requires
            fits(w as int, h as int),
            4 * (w * h) <= raw@.len(),
        ensures
            r.wf(),
            r@ == from_raw(w as int, h as int, raw@),
    {
        let mut px: Vec<Rgba> = Vec::new();
        assert(0 <= w * h <= usize::MAX) by (nonlinear_arith)
            requires
                fits(w as int, h as int),
        ;
        let n: usize = (w as u64 * h as u64) as usize;
        for k in 0..n
            invariant
                n == w * h,
                4 * n <= raw.len(),
                px@.len() == k,
                forall|i: int|
                    0 <= i < k ==> px@[i] == (Rgba {
                        r: raw@[4 * i],
                        g: raw@[4 * i + 1],
                        b: raw@[4 * i + 2],
                        a: raw@[4 * i + 3],
                    }),
        {
            px.push(
                Rgba { r: raw[4 * k], g: raw[4 * k + 1], b: raw[4 * k + 2], a: raw[4 * k + 3] },
            );
        }
        let r = Canvas { width: w, height: h, px };
        proof {
            let goal = from_raw(w as int, h as int, raw@);
            assert forall|x: int, y: int| #[trigger] r@.px(x, y) == goal.px(x, y) by {
                if 0 <= x < w && 0 <= y < h {
                    lemma_index(w as int, h as int, x, y);
                }
            }
            lemma_same(r@, goal);
        }
        r
    }
}

/// The bytes of a picture lead back to it.
pub proof fn bytes_round_trip(c: Canvas)
    requires
        c.wf(),
    ensures
        from_raw(c@.w, c@.h, raw_bytes(c@)) == c@,
{
    let p = c@;
    let q = from_raw(p.w, p.h, raw_bytes(p));
    assert forall|x: int, y: int| #[trigger] q.px(x, y) == p.px(x, y) by {
        if 0 <= x < p.w && 0 <= y < p.h {
            lemma_index(p.w, p.h, x, y);
            let k = y * p.w + x;
            lemma_place_of(k, p.w, p.h);
            lemma_index_unique(p.w, x, y, k % p.w, k / p.w);
        }
    }
    lemma_same(q, p);
}

// ---- laws ----

/// A picture over a checkerboard is opaque.
pub proof fn checkered_pictures_are_opaque(p: Picture, cell: int, x: int, y: int)
    requires
        p.inside(x, y),
    ensures
        over_checker(p, cell).px(x, y).a == 255,
{
}

/// No checkerboard shows through an opaque pixel, and nothing else through a clear one.
pub proof fn checkerboard_shows_where_clear(p: Picture, cell: int, x: int, y: int)
    requires
        p.inside(x, y),
    ensures
        p.px(x, y).a == 255 ==> over_checker(p, cell).px(x, y) == p.px(x, y),
        p.px(x, y).a == 0 ==> over_checker(p, cell).px(x, y) == checker_at(x, y, at_least(cell, 1)),
{
}

proof fn lemma_next_top(list: Seq<Picture>, k: nat, i: nat, gap: int)
    requires
        i < k <= list.len(),
        gap >= 0,
        forall|j: int| 0 <= j < list.len() ==> (#[trigger] list[j]).h >= 0 && list[j].w >= 0,
    ensures
        next_top(list.take(i as int), gap) >= 0,
        next_top(list.take(i as int), gap) + list[i as int].h <= next_top(list.take(k as int), gap),
    decreases k,
{
    let t = list.take(k as int);
    assert(t.drop_last() =~= list.take(k - 1));
    assert(t.last() == list[k - 1]);
    assert(list[k - 1].h >= 0);
    if i == k - 1 {
        lemma_stack_prefix(list, i, gap);
    } else {
        lemma_next_top(list, (k - 1) as nat, i, gap);
    }
}

proof fn lemma_laid_on(
    ground: Picture,
    list: Seq<Picture>,
    k: nat,
    gap: int,
    i: nat,
    x: int,
    y: int,
)
    requires
        i < k <= list.len(),
        gap >= 0,
        forall|j: int| 0 <= j < list.len() ==> (#[trigger] list[j]).h >= 0 && list[j].w >= 0,
        list[i as int].inside(x, y),
        ground.inside(x, next_top(list.take(i as int), gap) + y),
    ensures
        laid_on(ground, list.take(k as int), gap).w == ground.w,
        laid_on(ground, list.take(k as int), gap).h == ground.h,
        laid_on(ground, list.take(k as int), gap).px(x, next_top(list.take(i as int), gap) + y)
            == list[i as int].px(x, y),
    decreases k,
{
    let t = list.take(k as int);
    let at = next_top(list.take(i as int), gap) + y;
    assert(t.drop_last() =~= list.take(k - 1));
    assert(t.last() == list[k - 1]);
    lemma_laid_sides(ground, t.drop_last(), gap);
    if i < k - 1 {
        lemma_laid_on(ground, list, (k - 1) as nat, gap, i, x, y);
        lemma_next_top(list, (k - 1) as nat, i, gap);
        assert(list.take(k - 1).len() == k - 1);
        assert(at < next_top(t.drop_last(), gap));
    }
}

proof fn lemma_laid_sides(ground: Picture, list: Seq<Picture>, gap: int)
    ensures
        laid_on(ground, list, gap).w == ground.w,
        laid_on(ground, list, gap).h == ground.h,
    decreases list.len(),
{
    if list.len() > 0 {
        lemma_laid_sides(ground, list.drop_last(), gap);
    }
}

/// Every picture of a stack shows whole at its place: below all pictures before it and their gaps.
pub proof fn stack_shows_every_picture(
    list: Seq<Picture>,
    gap: int,
    bg: Rgba,
    i: int,
    x: int,
    y: int,
)
    requires
        gap >= 0,
        forall|j: int| 0 <= j < list.len() ==> (#[trigger] list[j]).h >= 0 && list[j].w >= 0,
        0 <= i < list.len(),
        list[i].inside(x, y),
    ensures
        stacked(list, gap, bg).px(x, next_top(list.take(i), gap) + y) == list[i].px(x, y),
{
    let ground = plain(widest(list), stack_height(list, gap), bg);
    lemma_stack_prefix(list, list.len(), gap);
    lemma_stack_prefix(list, i as nat, gap);
    assert(list[i].w <= widest(list));
    assert(list.take(list.len() as int) =~= list);
    lemma_laid_on(ground, list, list.len(), gap, i as nat, x, y);
}

/// A stack is as wide as its widest picture and as high as all of them with the gaps between them;
/// each picture stands a gap below the one before it.
pub proof fn stacks_have_their_size(list: Seq<Picture>, p: Picture, gap: int, bg: Rgba)
    requires
        gap >= 0,
        p.w >= 1,
        p.h >= 1,
    ensures
        next_top(Seq::empty(), gap) == 0,
        next_top(list.push(p), gap) == next_top(list, gap) + p.h + gap,
        stacked(list, gap, bg).w == widest(list),
        stacked(list, gap, bg).h == stack_height(list, gap),
        widest(list.push(p)) == (if widest(list) > p.w {
            widest(list)
        } else {
            p.w
        }),
        next_top(list, gap) >= 0 ==> stack_height(list.push(p), gap) == next_top(list, gap) + p.h,
{
    assert(list.push(p).drop_last() =~= list);
    lemma_laid_size(plain(widest(list), stack_height(list, gap), bg), list, gap);
}

proof fn lemma_laid_size(ground: Picture, list: Seq<Picture>, gap: int)
    ensures
        laid_on(ground, list, gap).w == ground.w,
        laid_on(ground, list, gap).h == ground.h,
    decreases list.len(),
{
    if list.len() > 0 {
        lemma_laid_size(ground, list.drop_last(), gap);
    }
}

/// Over a checkerboard of two dark grays each channel is mixed by the opacity of the pixel.
pub proof fn checkerboards_mix_by_opacity(p: Picture, cell: int, x: int, y: int)
    requires
        cell >= 1,
        p.inside(x, y),
    ensures
        ({
            let c = p.px(x, y);
            let light = (x / cell + y / cell) % 2 == 0;
            let base = if light {
                60int
            } else {
                42
            };
            let blue = if light {
                64int
            } else {
                46
            };
            let got = over_checker(p, cell).px(x, y);
            &&& got.r == (c.r * c.a + base * (255 - c.a)) / 255
            &&& got.g == (c.g * c.a + base * (255 - c.a)) / 255
            &&& got.b == (c.b * c.a + blue * (255 - c.a)) / 255
            &&& got.a == 255
        }),
{
    let c = p.px(x, y);
    let base = checker_at(x, y, cell);
    lemma_mixed(c.r, base.r, c.a);
    lemma_mixed(c.g, base.g, c.a);
    lemma_mixed(c.b, base.b, c.a);
}

proof fn lemma_mixed(over: u8, under: u8, a: u8)
    ensures
        mixed(over, under, a) == (over * a + under * (255 - a)) / 255,
{
    let n = over * a + under * (255 - a);
    assert(0 <= n <= 255 * 255) by (nonlinear_arith)
        requires
            n == over * a + under * (255 - a),
            0 <= over <= 255,
            0 <= under <= 255,
            0 <= a <= 255,
    ;
}

/// The bytes of a picture stand row by row, four for each pixel: red, green, blue, opacity.
pub proof fn bytes_stand_row_by_row(w: int, h: int, raw: Seq<u8>, x: int, y: int)
    requires
        0 <= x < w,
        0 <= y < h,
    ensures
        from_raw(w, h, raw).w == w,
        from_raw(w, h, raw).h == h,
        from_raw(w, h, raw).px(x, y).r == raw[4 * (y * w + x)],
        from_raw(w, h, raw).px(x, y).g == raw[4 * (y * w + x) + 1],
        from_raw(w, h, raw).px(x, y).b == raw[4 * (y * w + x) + 2],
        from_raw(w, h, raw).px(x, y).a == raw[4 * (y * w + x) + 3],
{
}

} // verus!
