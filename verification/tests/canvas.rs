use mcping_api::minecraft::render::canvas;
use mcping_api::minecraft::render::canvas::{Canvas, Rgba};
use mcping_api::minecraft::render::{composite_over_checker, encode_png, gui, stack_vertical};

fn px(r: u8, g: u8, b: u8, a: u8) -> Rgba {
    Rgba { r, g, b, a }
}

const CLEAR: Rgba = Rgba { r: 0, g: 0, b: 0, a: 0 };

fn count(c: &Canvas, p: Rgba) -> usize {
    let mut n = 0;
    for y in 0..c.height() {
        for x in 0..c.width() {
            if c.get(x, y) == p {
                n += 1;
            }
        }
    }
    n
}

#[test]
fn rectangles_are_clipped() {
    let red = px(255, 0, 0, 255);
    let mut c = Canvas::filled_with(4, 3, CLEAR);
    c.fill(-1, 1, 3, 9, red);
    assert_eq!(count(&c, red), 4);
    assert_eq!(c.get(0, 1), red);
    assert_eq!(c.get(1, 2), red);
    assert_eq!(c.get(2, 1), CLEAR);
    assert_eq!(c.get(0, 0), CLEAR);
    c.fill(10, 10, 5, 5, red);
    c.fill(0, 0, 0, 5, red);
    assert_eq!(count(&c, red), 4);
    c.put(3, 0, red);
    assert_eq!(c.get(3, 0), red);
}

#[test]
fn mixing() {
    let under = px(100, 200, 0, 255);
    assert_eq!(canvas::blend(px(9, 9, 9, 0), under), under);
    assert_eq!(canvas::blend(px(9, 9, 9, 255), under), px(9, 9, 9, 255));
    assert_eq!(canvas::blend(px(255, 0, 255, 128), under), px(177, 99, 128, 255));
}

#[test]
fn checkerboards_show_where_a_picture_is_clear() {
    let mut c = Canvas::filled_with(5, 3, CLEAR);
    c.put(4, 2, px(1, 2, 3, 255));
    c.put(0, 1, px(255, 255, 255, 51));
    let r = composite_over_checker(&c, 2);
    assert_eq!((r.width(), r.height()), (5, 3));
    assert_eq!(r.get(0, 0), px(60, 60, 64, 255));
    assert_eq!(r.get(2, 0), px(42, 42, 46, 255));
    assert_eq!(r.get(0, 2), px(42, 42, 46, 255));
    assert_eq!(r.get(2, 2), px(60, 60, 64, 255));
    assert_eq!(r.get(4, 2), px(1, 2, 3, 255));
    assert_eq!(r.get(0, 1), px(99, 99, 102, 255));
    let none = composite_over_checker(&Canvas::filled_with(0, 3, CLEAR), 0);
    assert_eq!((none.width(), none.height()), (1, 3));
    assert_eq!(none.get(0, 0), CLEAR);
}

#[test]
fn stacks_show_every_picture() {
    let a = Canvas::filled_with(2, 1, px(1, 0, 0, 255));
    let b = Canvas::filled_with(3, 2, px(2, 0, 0, 255));
    let bg = px(9, 9, 9, 255);
    let s = stack_vertical(&[a, b], 1, bg);
    assert_eq!((s.width(), s.height()), (3, 4));
    assert_eq!(s.get(1, 0), px(1, 0, 0, 255));
    assert_eq!(s.get(2, 0), bg);
    assert_eq!(s.get(0, 1), bg);
    assert_eq!(s.get(2, 2), px(2, 0, 0, 255));
    assert_eq!(s.get(2, 3), px(2, 0, 0, 255));
    let empty = stack_vertical(&[], 5, bg);
    assert_eq!((empty.width(), empty.height()), (1, 1));
}

#[test]
fn sprites_are_enlarged_without_their_faint_pixels() {
    let mut sprite = Canvas::filled_with(2, 1, px(5, 5, 5, 7));
    sprite.put(1, 0, px(6, 6, 6, 8));
    let mut c = Canvas::filled_with(8, 4, CLEAR);
    canvas::blit_sprite(&mut c, &sprite, 1, 1, 3);
    assert_eq!(count(&c, px(6, 6, 6, 8)), 9);
    assert_eq!(c.get(4, 1), px(6, 6, 6, 8));
    assert_eq!(c.get(6, 3), px(6, 6, 6, 8));
    assert_eq!(c.get(1, 1), CLEAR);
    canvas::blit_sprite(&mut c, &sprite, 0, 0, 0);
    assert_eq!(count(&c, px(6, 6, 6, 8)), 9);
}

#[test]
fn icons_fill_their_square() {
    let mut icon = Canvas::filled_with(2, 2, px(1, 1, 1, 255));
    icon.put(1, 0, px(2, 2, 2, 0));
    let mut c = Canvas::filled_with(6, 6, px(9, 9, 9, 255));
    canvas::blit_favicon(&mut c, &icon, 1, 1, 3);
    assert_eq!(c.get(1, 1), px(1, 1, 1, 255));
    assert_eq!(c.get(2, 1), px(1, 1, 1, 255));
    assert_eq!(c.get(3, 1), px(2, 2, 2, 0));
    assert_eq!(c.get(3, 3), px(1, 1, 1, 255));
    assert_eq!(c.get(4, 1), px(9, 9, 9, 255));
    let mut c = Canvas::filled_with(4, 4, CLEAR);
    canvas::placeholder_icon(&mut c, 0, 0, 3);
    assert_eq!(count(&c, px(80, 80, 90, 255)), 8);
    assert_eq!(c.get(1, 1), px(40, 40, 48, 255));
    assert_eq!(c.get(3, 3), CLEAR);
}

#[test]
fn pictures_go_through_their_files() {
    let mut c = Canvas::filled_with(3, 2, px(10, 20, 30, 255));
    c.put(2, 1, px(1, 2, 3, 4));
    let file = encode_png(&c).unwrap();
    assert_eq!(&file[1..4], b"PNG");
    let back = gui::load_sprite(&file, 10, 8);
    assert_eq!((back.width(), back.height()), (3, 2));
    assert_eq!(back.get(2, 1), px(1, 2, 3, 4));
    assert_eq!(back.get(0, 0), px(10, 20, 30, 255));
    assert_eq!(back.to_raw(), c.to_raw());
    let blank = gui::load_sprite(b"no picture", 10, 8);
    assert_eq!((blank.width(), blank.height()), (10, 8));
    assert_eq!(count(&blank, CLEAR), 80);
    assert!(encode_png(&Canvas::filled_with(0, 1, CLEAR)).is_err());
}

#[test]
fn bytes_are_laid_out_row_by_row() {
    let raw: Vec<u8> = (0..24).collect();
    let c = Canvas::from_bytes(3, 2, &raw);
    assert_eq!(c.get(1, 0), px(4, 5, 6, 7));
    assert_eq!(c.get(0, 1), px(12, 13, 14, 15));
    assert_eq!(c.to_raw(), raw);
}

#[test]
fn decoded_pictures() {
    assert!(gui::picture_of(None).is_none());
    assert!(gui::icon_from(Some((0, 1, vec![]))).is_none());
    assert!(gui::icon_from(Some((1, 1, vec![1, 2, 3, 4]))).is_some());
    assert_eq!(gui::picture_of(Some((0, 1, vec![]))).unwrap().width(), 0);
    assert_eq!(gui::sprite_from(None, 1, 1).get(0, 0), CLEAR);
}

#[test]
fn memory_bounds() {
    assert!(canvas::is_holdable(1000, 1000));
    assert!(!canvas::is_holdable(1 << 31, 1));
    assert!(canvas::is_holdable((1 << 31) - 1, 1));
}
