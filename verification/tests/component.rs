use mcping_api::minecraft::color::Color;
use mcping_api::minecraft::component;
use mcping_api::minecraft::component::{Component, ResolvedStyle, Span, Style};
use mcping_api::minecraft::json;

fn parts(spans: &[Span]) -> Vec<(String, ResolvedStyle)> {
    spans.iter().map(|s| (s.text.clone(), s.style)).collect()
}

fn plain() -> ResolvedStyle {
    ResolvedStyle::default()
}

fn colored(c: Color) -> ResolvedStyle {
    ResolvedStyle { color: Some(c), ..plain() }
}

fn from(s: &str) -> Component {
    Component::from_json(&json::parse(s).unwrap())
}

#[test]
fn plain_text_is_one_span() {
    assert_eq!(parts(&Component::text("hello").to_spans()), vec![("hello".to_string(), plain())]);
    assert_eq!(parts(&Component::text("").to_spans()), vec![]);
}

#[test]
fn formatting_codes_act_from_left_to_right() {
    let s = Component::text("a§lb§cc§nd§re§").to_spans();
    let red = Color::Named(12);
    assert_eq!(
        parts(&s),
        vec![
            ("a".to_string(), plain()),
            ("b".to_string(), ResolvedStyle { bold: true, ..plain() }),
            ("c".to_string(), colored(red)),
            ("d".to_string(), ResolvedStyle { underlined: true, ..colored(red) }),
            ("e".to_string(), plain()),
        ]
    );
}

#[test]
fn every_style_code() {
    let s = Component::text("§K1§L2§M3§N4§O5").to_spans();
    let last = s.last().unwrap().style;
    assert_eq!(
        last,
        ResolvedStyle {
            color: None,
            bold: true,
            italic: true,
            underlined: true,
            strikethrough: true,
            obfuscated: true,
        }
    );
    assert_eq!(s.len(), 5);
}

#[test]
fn bedrock_gold_and_unknown_codes() {
    let s = Component::text("§gx§zy§§z").to_spans();
    assert_eq!(parts(&s), vec![("xyz".to_string(), colored(Color::Rgb(0xDD, 0xD6, 0x05)))]);
}

#[test]
fn six_digit_codes() {
    let s = Component::text("§l§x§F§f§8§0§0§1t").to_spans();
    assert_eq!(parts(&s), vec![("t".to_string(), colored(Color::Rgb(0xFF, 0x80, 0x01)))]);
    let short = Component::text("§x§F§f§8§0§0t").to_spans();
    assert_eq!(short.last().unwrap().style, colored(Color::Named(0)));
    assert_eq!(Component::text("§x§F§f§8§0§0t").plain(), "t");
}

#[test]
fn reset_goes_back_to_the_style_of_the_component() {
    let c = from(r#"{"text":"a§cb§rc","color":"gold","bold":true}"#);
    let own = ResolvedStyle { bold: true, ..colored(Color::Named(6)) };
    assert_eq!(
        parts(&c.to_spans()),
        vec![
            ("a".to_string(), own),
            ("b".to_string(), colored(Color::Named(12))),
            ("c".to_string(), own),
        ]
    );
}

#[test]
fn children_inherit_and_neighbours_merge() {
    let c = from(
        r##"{"text":"a","color":"#102030","extra":["b",{"text":"c","italic":true},{"text":"d","italic":"true"}]}"##,
    );
    let base = colored(Color::Rgb(0x10, 0x20, 0x30));
    assert_eq!(
        parts(&c.to_spans()),
        vec![
            ("ab".to_string(), base),
            ("cd".to_string(), ResolvedStyle { italic: true, ..base }),
        ]
    );
    assert_eq!(c.plain(), "abcd");
}

#[test]
fn components_come_in_every_json_form() {
    assert_eq!(from("\"x\"").plain(), "x");
    assert_eq!(from("true").plain(), "true");
    assert_eq!(from("false").plain(), "false");
    assert_eq!(from("12").plain(), "12");
    assert_eq!(from("1.5").plain(), "1.5");
    assert_eq!(from("null").plain(), "");
    assert_eq!(from("[]").plain(), "");
    assert_eq!(from(r#"[{"text":"a","bold":true},"b"]"#).plain(), "ab");
    assert!(from(r#"[{"text":"a","bold":true},"b"]"#).to_spans()[0].style.bold);
    assert_eq!(from(r#"[["x"]]"#).plain(), from("\"x\"").plain());
    assert_eq!(from(r#"{"text":5,"extra":"no","color":7}"#).plain(), "");
}

#[test]
fn unknown_colors_count_as_none() {
    assert_eq!(from(r#"{"text":"a","color":"puce"}"#).to_spans()[0].style, plain());
    assert!(from(r#"{"text":"a","color":"red"}"#).colors_are_known());
    let bad = Component {
        style: Style { color: Some(Color::Named(16)), ..Style::default() },
        ..Component::text("a")
    };
    assert!(!bad.colors_are_known());
}

#[test]
fn translations_take_their_arguments() {
    let t = |s: &str| from(&format!(r#"{{"translate":"{s}","with":["A",{{"text":"§cB"}},"C"]}}"#)).plain();
    assert_eq!(t("%s-%s-%s-%s"), "A-B-C-");
    assert_eq!(t("%2$s %1$s %s"), "B A A");
    assert_eq!(t("100%% %3$s"), "100% C");
    assert_eq!(t("%1 %2$x"), "A Bx");
    assert_eq!(t("%9$s%0$s|"), "|");
    assert_eq!(t("%d %"), "%d %");
    assert_eq!(t("no slots"), "no slots");
    assert_eq!(from(r#"{"translate":"100%%"}"#).plain(), "100%");
    assert_eq!(from(r#"{"translate":"%s%% %%s %1$s %%%"}"#).plain(), "%s% %s %1$s %%");
    assert_eq!(from(r#"{"translate":"100%%","with":["x"]}"#).plain(), "100%");
    assert_eq!(from(r#"{"translate":"key","fallback":"<%s>","with":["x"]}"#).plain(), "<x>");
    assert_eq!(from(r#"{"text":"t","translate":"key"}"#).plain(), "t");
}

#[test]
fn terminal_colors() {
    let s = Component::text("a§l§nb").to_spans();
    assert_eq!(component::to_ansi(&s), "a\x1b[0m\x1b[1;4mb\x1b[0m");
    let g = Component::text("§6x").to_spans();
    assert_eq!(component::to_ansi(&g), "\x1b[38;2;255;170;0mx\x1b[0m");
    let all = Component::text("§a§l§o§n§m§ky").to_spans();
    assert_eq!(component::to_ansi(&all), "\x1b[38;2;85;255;85;1;3;4;9my\x1b[0m");
}

#[test]
fn expanding_and_merging_by_hand() {
    let mut out = Vec::new();
    component::expand_section("§c§lx", plain(), &mut out);
    assert_eq!(
        parts(&out),
        vec![("x".to_string(), ResolvedStyle { bold: true, ..colored(Color::Named(12)) })]
    );
    let twice = vec![out[0].clone(), out[0].clone()];
    let merged = component::merge_adjacent(twice);
    assert_eq!(merged.len(), 1);
    assert_eq!(merged[0].text, "xx");
}

#[test]
fn no_code_is_left_in_plain_text() {
    for s in ["§", "§§", "a§", "§x§1§2", "§k§l§m§n§o§r", "x§§§§y"] {
        let c = Component::text(s);
        assert!(!c.plain().contains('§'));
        assert!(c.to_spans().iter().all(|sp| !sp.text.is_empty()));
    }
}

#[test]
fn neighbours_never_share_a_style() {
    let c = from(r#"[{"text":"a§lb"},{"text":"c","bold":true},"",{"text":"d","bold":true},"§re"]"#);
    let s = c.to_spans();
    assert!(s.windows(2).all(|w| w[0].style != w[1].style));
    assert_eq!(s.iter().map(|x| x.text.as_str()).collect::<String>(), c.plain());
    assert_eq!(c.plain(), "abcde");
    assert!(component::spans_have_known_colors(&s));
    let mut bad = s.clone();
    bad[0].style.color = Some(Color::Named(20));
    assert!(!component::spans_have_known_colors(&bad));
}
