use mcping_api::minecraft::color::Color;
use mcping_api::minecraft::component::{Component, ResolvedStyle};
use mcping_api::minecraft::font;
use mcping_api::minecraft::font::{Glyph, VanillaFont};
use mcping_api::minecraft::render::canvas::{Canvas, Rgba};
use mcping_api::minecraft::render::draw::{self, Ctx};
use mcping_api::minecraft::render::{
    card, encode_png, glyphs, motd, options, render_component, render_motd, render_motd_png, single,
    slant, OldColorPolicy, RenderOptions, TargetVersion,
};

/// `p` has one pixel in its upper left corner, `v` a column of eight, and Unifont has `漢`.
fn dots() -> VanillaFont {
    let mut d = b"MCF2".to_vec();
    d.extend_from_slice(&3u32.to_le_bytes());
    d.extend_from_slice(&('p' as u32).to_le_bytes());
    d.extend_from_slice(&[6, 5, 1, 7]);
    d.extend_from_slice(&0x8000u16.to_le_bytes());
    d.extend_from_slice(&('v' as u32).to_le_bytes());
    d.extend_from_slice(&[2, 1, 8, 7]);
    for _ in 0..8 {
        d.extend_from_slice(&0x8000u16.to_le_bytes());
    }
    d.extend_from_slice(&('A' as u32).to_le_bytes());
    d.extend_from_slice(&[6, 1, 1, 7]);
    d.extend_from_slice(&0x8000u16.to_le_bytes());
    let mut u = b"UFB1".to_vec();
    u.extend_from_slice(&1u32.to_le_bytes());
    u.extend_from_slice(&0x6F22u16.to_le_bytes());
    u.push(16);
    let mut bitmap = vec![0u8; 32];
    bitmap[0] = 0x80;
    u.extend_from_slice(&bitmap);
    font::font(&d, &u).unwrap()
}

fn opts() -> RenderOptions {
    RenderOptions { scale: 2, max_width: 20, max_lines: 1, padding: 0, background: None, ..RenderOptions::default() }
}

fn draw(s: &str, o: &RenderOptions) -> Canvas {
    render_motd(&dots(), &Component::text(s).to_spans(), o)
}

const CLEAR: Rgba = Rgba { r: 0, g: 0, b: 0, a: 0 };

fn gray(n: u8) -> Rgba {
    Rgba { r: n, g: n, b: n, a: 255 }
}

fn lit(c: &Canvas, p: Rgba) -> Vec<(u32, u32)> {
    let mut v = Vec::new();
    for y in 0..c.height() {
        for x in 0..c.width() {
            if c.get(x, y) == p {
                v.push((x, y));
            }
        }
    }
    v
}

fn square(x: u32, y: u32, n: u32) -> Vec<(u32, u32)> {
    let mut v = Vec::new();
    for b in y..y + n {
        for a in x..x + n {
            v.push((a, b));
        }
    }
    v
}

#[test]
fn a_glyph_and_its_shadow() {
    let c = draw("p", &opts());
    assert_eq!((c.width(), c.height()), (40, 24));
    assert_eq!(lit(&c, gray(128)), square(0, 0, 2));
    assert_eq!(lit(&c, gray(32)), square(2, 2, 2));
    let bare = draw("p", &RenderOptions { shadow: false, ..opts() });
    assert!(lit(&bare, gray(32)).is_empty());
    assert_eq!(lit(&bare, CLEAR).len(), 40 * 24 - 4);
}

#[test]
fn padding_background_and_enlargement() {
    let bg = Rgba { r: 1, g: 2, b: 3, a: 4 };
    let o = RenderOptions { scale: 3, padding: 2, background: Some(bg), shadow: false, ..opts() };
    let c = draw("pp", &o);
    assert_eq!((c.width(), c.height()), (72, 48));
    let mut want = square(6, 6, 3);
    want.extend(square(24, 6, 3));
    want.sort_by_key(|(x, y)| (*y, *x));
    assert_eq!(lit(&c, gray(128)), want);
    assert_eq!(c.get(71, 47), bg);
    let nothing = draw("", &RenderOptions { scale: 0, ..opts() });
    assert_eq!((nothing.width(), nothing.height()), (1, 1));
}

#[test]
fn unifont_glyphs_take_half_the_enlargement() {
    let o = RenderOptions { scale: 4, shadow: false, ..opts() };
    let c = draw("漢", &o);
    assert_eq!(lit(&c, gray(128)), square(0, 0, 2));
    let shadow = draw("漢", &RenderOptions { scale: 4, ..opts() });
    assert_eq!(lit(&shadow, gray(32)), square(2, 2, 2));
}

#[test]
fn bold_text_is_drawn_twice() {
    let c = draw("§lp", &RenderOptions { shadow: false, ..opts() });
    let mut want = square(0, 0, 2);
    want.extend(square(2, 0, 2));
    want.sort_by_key(|(x, y)| (*y, *x));
    assert_eq!(lit(&c, gray(128)), want);
}

#[test]
fn lines_through_and_below_text() {
    let o = RenderOptions { scale: 2, shadow: false, ..opts() };
    let c = draw("§mp", &o);
    let through: Vec<u32> = (0..24).filter(|y| c.get(5, *y) == gray(128)).collect();
    assert_eq!(through, vec![7, 8]);
    let c = draw("§np", &o);
    let below: Vec<u32> = (0..24).filter(|y| c.get(11, *y) == gray(128)).collect();
    assert_eq!(below, vec![16, 17]);
    assert_eq!(c.get(12, 16), CLEAR);
}

#[test]
fn slanted_text_leans_by_a_quarter() {
    let g = |unifont: bool, ascent: u8| Glyph {
        advance: 1,
        width: 1,
        height: 16,
        ascent,
        unifont,
        rows: [0; 16],
    };
    let at = |row: u32| slant::italic_shear(&g(false, 7), row, 4);
    assert_eq!([at(0), at(1), at(2), at(3), at(4), at(8)], [4, 3, 2, 1, 0, -4]);
    assert_eq!(slant::italic_shear(&g(false, 7), 1, 2), 2);
    assert_eq!(slant::italic_shear(&g(false, 7), 5, 2), -1);
    assert_eq!(slant::italic_shear(&g(true, 14), 0, 4), 4);
    assert_eq!(slant::italic_shear(&g(true, 14), 1, 4), 4);
    assert_eq!(slant::italic_shear(&g(true, 14), 2, 4), 3);
    assert_eq!(slant::italic_shear(&g(true, 14), 15, 4), -4);
    assert_eq!(slant::italic_shear(&g(true, 14), 3, 0), 0);
    let c = draw("§ov", &RenderOptions { scale: 4, shadow: false, ..opts() });
    assert_eq!(c.get(4, 0), gray(128));
    assert_eq!(c.get(0, 0), CLEAR);
    assert_eq!(c.get(0, 16), gray(128));
}

#[test]
fn colors_for_old_clients() {
    let hex = "§x§F§0§0§0§0§0p";
    let at = |target, policy| {
        draw(hex, &RenderOptions { target, old_color_policy: policy, shadow: false, ..opts() }).get(0, 0)
    };
    let red = Rgba { r: 0xF0, g: 0, b: 0, a: 255 };
    assert_eq!(at(TargetVersion::Latest, OldColorPolicy::Drop), red);
    assert_eq!(at(TargetVersion::V1_16_5, OldColorPolicy::Drop), red);
    assert_eq!(at(TargetVersion::V1_12_2, OldColorPolicy::Drop), gray(128));
    let near = at(TargetVersion::V1_8_9, OldColorPolicy::Downsample);
    assert_eq!(near, Rgba { r: 170, g: 0, b: 0, a: 255 });
    let o = opts();
    assert_eq!(options::adjust(Some(Color::Named(4)), &o), Some(Color::Named(4)));
    assert_eq!(options::adjust(None, &o), None);
    assert_eq!(TargetVersion::V1_8_9.protocol(), 47);
    assert_eq!(TargetVersion::V1_12_2.protocol(), 340);
    assert_eq!(TargetVersion::V1_16_5.protocol(), 754);
    assert_eq!(TargetVersion::Latest.protocol(), 775);
    assert!(!TargetVersion::V1_8_9.supports_hex() && TargetVersion::Latest.supports_hex());
}

#[test]
fn the_shadow_of_gold_text_is_a_quarter_too() {
    let c = draw("§6p", &opts());
    assert_eq!(c.get(2, 2), Rgba { r: 63, g: 42, b: 0, a: 255 });
}

#[test]
fn obfuscated_text_shows_other_glyphs() {
    let c = draw("§kvv", &RenderOptions { shadow: false, obfuscate_seed: 5, ..opts() });
    let again = draw("§kvv", &RenderOptions { shadow: false, obfuscate_seed: 5, ..opts() });
    assert_eq!(c.to_raw(), again.to_raw());
    assert_eq!(draw::salt(0, 0, 0), 0);
    let x = 0x9E37_79B9_7F4A_7C15u64;
    let y = x ^ (x >> 30);
    let z = y.wrapping_mul(0xBF58_476D_1CE4_E5B9);
    assert_eq!(draw::salt(0, 1, 0), z ^ (z >> 27));
}

#[test]
fn lines_are_nine_apart() {
    let o = RenderOptions { max_lines: 2, shadow: false, ..opts() };
    let c = draw("p\np", &o);
    assert_eq!((c.width(), c.height()), (40, 42));
    let mut want = square(0, 0, 2);
    want.extend(square(0, 18, 2));
    assert_eq!(lit(&c, gray(128)), want);
}

#[test]
fn right_aligned_text() {
    let f = dots();
    let mut c = Canvas::filled_with(40, 20, CLEAR);
    let ctx = Ctx { font: &f, opts: RenderOptions { shadow: false, ..opts() }, fg: (9, 9, 9) };
    draw::draw_right_dev(&mut c, &ctx, 40, 0, &Component::text("pp").to_spans());
    let mut want = square(16, 0, 2);
    want.extend(square(28, 0, 2));
    want.sort_by_key(|(x, y)| (*y, *x));
    assert_eq!(lit(&c, gray(9)), want);
}

#[test]
fn one_glyph_by_hand() {
    let f = dots();
    let mut c = Canvas::filled_with(8, 24, CLEAR);
    let ctx = Ctx { font: &f, opts: opts(), fg: (200, 100, 50) };
    let p = glyphs::place(&f, 'p', ResolvedStyle::default(), 2);
    draw::draw_glyph(&mut c, &ctx, 3, 1, &p, 0, 0, false);
    assert_eq!(lit(&c, Rgba { r: 200, g: 100, b: 50, a: 255 }), square(3, 1, 2));
}

#[test]
fn pictures_as_files() {
    let f = dots();
    let comp = Component::text("p");
    let spans = comp.to_spans();
    let a = render_motd_png(&f, &spans, &opts()).unwrap();
    let b = encode_png(&render_component(&f, &comp, &opts())).unwrap();
    assert_eq!(a, b);
    let back = image::load_from_memory(&a).unwrap().to_rgba8();
    assert_eq!(back.dimensions(), (40, 24));
    assert_eq!(back.get_pixel(0, 0).0, [128, 128, 128, 255]);
}

#[test]
fn usual_options() {
    let o = RenderOptions::default();
    assert_eq!((o.scale, o.max_width, o.max_lines, o.padding), (4, 267, 2, 4));
    assert_eq!(o.default_color, (128, 128, 128));
    assert_eq!(o.background, Some(Rgba { r: 20, g: 20, b: 24, a: 255 }));
    assert!(o.shadow);
    assert_eq!(o.obfuscate_seed, 0);
}

#[test]
fn descriptions_that_cannot_be_drawn() {
    let f = dots();
    let spans = Component::text("p").to_spans();
    assert!(motd::motd_can_be_drawn(&f, &spans, &opts()));
    assert!(!motd::motd_can_be_drawn(&f, &spans, &RenderOptions { scale: 0x10_0001, ..opts() }));
    let wide = RenderOptions { max_width: u32::MAX, ..opts() };
    assert!(!motd::motd_can_be_drawn(&f, &spans, &wide));
    let mut bad = spans.clone();
    bad[0].style.color = Some(Color::Named(16));
    assert!(!motd::motd_can_be_drawn(&f, &bad, &opts()));
}

/// The movement of a row as single-precision numbers give it.
fn slant_by_floats(g: &Glyph, row: u32, scale: u32) -> i64 {
    let side = if g.unifont { (scale / 2).max(1) } else { scale };
    let (blk, s) = (side as f32, scale as f32);
    let up = 7.0 - g.ascent as f32 * blk / s;
    let down = up + g.height as f32 * blk / s;
    let (top, bottom) = (1.0 - 0.25 * up, 1.0 - 0.25 * down);
    let t = if g.height == 0 { 0.0 } else { row as f32 / g.height as f32 };
    ((top + (bottom - top) * t) * s).round() as i64
}

#[test]
fn slanted_text_is_computed_in_single_precision() {
    let wide = Glyph { advance: 9, width: 16, height: 16, ascent: 14, unifont: true, rows: [0; 16] };
    assert_eq!(slant::italic_shear(&wide, 3, 3), 0);
    assert_eq!(slant::italic_shear(&wide, 3, 4), slant_by_floats(&wide, 3, 4));
    let scales = (0..200).chain([1023, 4095, 65537, 1048575, 1048576]);
    for scale in scales {
        for unifont in [false, true] {
            for ascent in [0, 5, 7, 10, 14, 255] {
                for height in [1, 3, 7, 8, 11, 12, 13, 16] {
                    let g = Glyph { height, ascent, unifont, ..wide };
                    for row in 0..height as u32 {
                        assert_eq!(
                            slant::italic_shear(&g, row, scale),
                            slant_by_floats(&g, row, scale)
                        );
                    }
                }
            }
        }
    }
}

#[test]
fn single_precision_numbers() {
    let units = |x: f32| (x as f64 * single::UNIT as f64) as i128;
    for n in [0i128, 1, 2, 3, 7, 10, 100, 16777215, 16777217, 16777219, 33554435, 268435455] {
        assert_eq!(single::round(n, 1), n as f32 as i128);
        assert_eq!(single::round(-n, 1), -(n as f32 as i128));
        for d in [1u32, 3, 7, 10, 48, 255, 1000003] {
            let m = n.min(16777215);
            let got = single::round(m * single::UNIT, d as u128);
            assert_eq!(got, units(m as f32 / d as f32));
        }
    }
    let t = single::round(single::UNIT, 3);
    let got = single::interpolate(38 * single::UNIT, 24 * single::UNIT, t);
    assert_eq!(got, units(38.0f32 + (24.0f32 - 38.0f32) * (1.0f32 / 3.0f32)));
    assert_eq!(single::to_whole(single::UNIT / 2), 1);
    assert_eq!(single::to_whole(-single::UNIT / 2), -1);
    assert_eq!(single::to_whole(single::UNIT / 2 - 1), 0);
}

#[test]
fn the_edge_of_the_box_is_shaded_in_single_precision() {
    for h in [1u32, 2, 15, 24, 48, 192, 1000, 40000] {
        let mut c = Canvas::filled_with(4, h, CLEAR);
        card::draw_tooltip(&mut c, 0, 0, 4, h, 1);
        for dy in 0..h {
            let t = dy as f32 / h as f32;
            let mix = |a: u8, b: u8| (a as f32 + (b as f32 - a as f32) * t) as u8;
            let p = c.get(0, dy);
            assert_eq!((p.r, p.g, p.b, p.a), (mix(38, 24), 0, mix(95, 52), 255));
            assert_eq!(c.get(3, dy), p);
        }
    }
}
