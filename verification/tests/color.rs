use mcping_api::minecraft::color;
use mcping_api::minecraft::color::Color;

#[test]
fn the_sixteen_colors() {
    let names = [
        "black", "dark_blue", "dark_green", "dark_aqua", "dark_red", "dark_purple", "gold", "gray",
        "dark_gray", "blue", "green", "aqua", "red", "light_purple", "yellow", "white",
    ];
    for (i, name) in names.iter().enumerate() {
        assert_eq!(color::by_name(name), Some(Color::Named(i)));
        assert_eq!(Color::Named(i).name(), Some(*name));
        assert_eq!(color::named(i).name, *name);
        let code = "0123456789abcdef".chars().nth(i).unwrap();
        assert_eq!(color::named(i).code, code);
        assert_eq!(color::index_by_code(code), Some(i));
        assert_eq!(color::index_by_code(code.to_ascii_uppercase()), Some(i));
        assert_eq!(color::nearest_named(Color::Named(i).rgb()), i);
    }
    assert_eq!(color::by_name("Gold"), None);
    assert_eq!(color::index_by_code('g'), None);
    assert_eq!(color::index_by_code('§'), None);
}

#[test]
fn values_and_shadows() {
    assert_eq!(Color::Named(6).rgb(), (255, 170, 0));
    assert_eq!(Color::Named(6).shadow_rgb(), (0x3E, 0x2A, 0x00));
    assert_eq!(Color::Named(13).rgb(), (255, 85, 255));
    assert_eq!(Color::Named(13).shadow_rgb(), (63, 21, 63));
    assert_eq!(Color::Rgb(1, 2, 255).rgb(), (1, 2, 255));
    assert_eq!(Color::Rgb(7, 8, 255).shadow_rgb(), (1, 2, 63));
    assert_eq!(Color::Rgb(7, 8, 255).name(), None);
}

#[test]
fn hexadecimal_colors_have_one_to_six_digits() {
    assert_eq!(color::parse("#FFaa00"), Some(Color::Rgb(255, 170, 0)));
    assert_eq!(color::parse("#abc"), Some(Color::Rgb(0, 0x0A, 0xBC)));
    assert_eq!(color::parse("#7"), Some(Color::Rgb(0, 0, 7)));
    assert_eq!(color::parse("#"), None);
    assert_eq!(color::parse("#1234567"), None);
    assert_eq!(color::parse("#12345g"), None);
    assert_eq!(color::parse("#+12"), None);
    assert_eq!(color::parse("red"), Some(Color::Named(12)));
    assert_eq!(color::parse("nothing"), None);
    assert_eq!(color::parse(""), None);
    assert_eq!(color::parse_hex("00ff10"), Some((0, 255, 16)));
}

#[test]
fn downsampling_finds_the_nearest_color() {
    assert_eq!(Color::Rgb(250, 250, 250).downsample(), Color::Named(15));
    assert_eq!(Color::Rgb(0, 0, 160).downsample(), Color::Named(1));
    assert_eq!(Color::Rgb(0xDD, 0xD6, 0x05).downsample(), Color::Named(6));
    assert_eq!(Color::Named(3).downsample(), Color::Named(3));
    let once = Color::Rgb(123, 45, 67).downsample();
    assert_eq!(once.downsample(), once);
}

#[test]
fn shadows_are_a_quarter_but_for_gold() {
    for i in (0..16).filter(|i| *i != 6) {
        let c = Color::Named(i);
        let (r, g, b) = c.rgb();
        assert_eq!(c.shadow_rgb(), (r / 4, g / 4, b / 4));
    }
}
