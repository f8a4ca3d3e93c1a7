use mcping_api::api;
use mcping_api::minecraft::bedrock::{self, BedrockResult};
use mcping_api::minecraft::component::Component;
use mcping_api::minecraft::protocol::{self, PingError, PingResult, ResolvedAddress};
use mcping_api::minecraft::render::canvas::{Canvas, Rgba};
use mcping_api::minecraft::render::card::{self, card_can_be_drawn};
use mcping_api::minecraft::render::draw::Ctx;
use mcping_api::minecraft::render::gui::{self, Assets};
use mcping_api::minecraft::render::{
    encode_png, info, render_select_server_png, render_select_server_screen, render_server_card,
    render_server_card_png, render_server_list_png, render_server_list_screen, screen, CardOptions,
    ListEntry, RenderOptions, ScreenOptions,
};

fn px(r: u8, g: u8, b: u8, a: u8) -> Rgba {
    Rgba { r, g, b, a }
}

fn file(w: u32, h: u32, c: Rgba) -> Vec<u8> {
    encode_png(&Canvas::filled_with(w, h, c)).unwrap()
}

/// Signal bars of which the number `i` has red `i`, red dirt and a blue button.
fn assets() -> Assets {
    let bars: Vec<Vec<u8>> = (1..=5).map(|i| file(10, 8, px(i, 0, 0, 255))).collect();
    Assets::load(
        &[],
        &[],
        &bars,
        &file(10, 8, px(77, 0, 0, 255)),
        &file(16, 16, px(200, 100, 40, 255)),
        &file(200, 20, px(0, 0, 250, 255)),
    )
    .unwrap()
}

fn result(raw: &str, latency: Option<u128>) -> PingResult {
    let address = ResolvedAddress { host: "example.org".to_string(), port: 25565, via_srv: false };
    protocol::conclude(latency, raw.to_string(), None, address, &Vec::new()).unwrap()
}

fn text_of(spans: &[mcping_api::minecraft::Span]) -> String {
    spans.iter().map(|s| s.text.as_str()).collect()
}

#[test]
fn signal_bars_by_latency() {
    let a = assets();
    let red = |ms: Option<u128>| gui::ping_sprite(&a, ms).get(0, 0).r;
    assert_eq!(red(Some(0)), 5);
    assert_eq!(red(Some(149)), 5);
    assert_eq!(red(Some(150)), 4);
    assert_eq!(red(Some(299)), 4);
    assert_eq!(red(Some(300)), 3);
    assert_eq!(red(Some(600)), 2);
    assert_eq!(red(Some(999)), 2);
    assert_eq!(red(Some(1000)), 1);
    assert_eq!(red(None), 77);
}

#[test]
fn assets_that_cannot_be_drawn_from() {
    let bars: Vec<Vec<u8>> = vec![Vec::new(); 5];
    let dirt = file(16, 16, px(1, 1, 1, 255));
    assert!(Assets::load(&[], &[], &bars, &[], &dirt, &file(200, 20, px(1, 1, 1, 255))).is_some());
    assert!(Assets::load(&[], &[], &bars, &[], &[], &file(50, 20, px(1, 1, 1, 255))).is_some());
    assert!(Assets::load(&[], &[], &bars, &[], &dirt, &file(49, 20, px(1, 1, 1, 255))).is_none());
    assert!(Assets::load(&[], &[], &bars, &[], &dirt, &[]).is_none());
}

#[test]
fn lines_about_a_server() {
    let r = result(
        r#"{"version":{"name":" §6Paper §r","protocol":767,"supportedVersions":[340,47]},
            "players":{"online":3,"max":10},"betterStatus":{"name":"Pack","version":"2"},
            "forgeData":{"mods":[{"modId":"a"}],"truncated":true},
            "enforcesSecureChat":true,"preventsChatReports":true}"#,
        Some(42),
    );
    assert_eq!(text_of(&info::info_line1(&r)), "42ms  ·  Paper  ·  协议 767");
    assert_eq!(
        text_of(&info::info_line2(&r)),
        "整合包 Pack 2  ·  Forge · 1 模组+  ·  Via 兼容 2 版 · proto 47–340  ·  安全聊天  ·  免举报"
    );
    assert_eq!(text_of(&info::player_count_spans(&r)), "3/10");
    assert_eq!(info::title_text(&r, &None), "example.org:25565");
    assert_eq!(info::title_text(&r, &Some("T".to_string())), "T");
    let bare = result("{}", None);
    assert_eq!(text_of(&info::info_line1(&bare)), "协议 0");
    assert!(info::info_line2(&bare).is_empty());
    assert!(info::player_count_spans(&bare).is_empty());
}

#[test]
fn parts_of_the_second_line() {
    let line = |raw: &str| text_of(&info::info_line2(&result(raw, None)));
    assert_eq!(line(r#"{"betterStatus":{"name":"P"}}"#), "整合包 P");
    assert_eq!(line(r#"{"betterStatus":{"version":"1"}}"#), "整合包 v1");
    assert_eq!(line(r#"{"isModded":true}"#), "Modded");
    assert_eq!(line(r#"{"forgeData":{}}"#), "Forge");
    assert_eq!(line(r#"{"modinfo":{"type":"FML"}}"#), "");
    assert_eq!(line(r#"{"version":{"supportedVersions":[5]}}"#), "Via 兼容 1 版 · proto 5");
}

#[test]
fn cards_have_their_sides() {
    let a = assets();
    let opts = CardOptions { scale: 1, ..CardOptions::default() };
    let r = result(r#"{"description":"hi"}"#, Some(10));
    assert!(card_can_be_drawn(&r, 1, &None));
    let c = render_server_card(&a, &r, &opts);
    assert_eq!((c.width(), c.height()), (327, 56));
    assert_eq!(c.get(0, 0), px(20, 20, 24, 255));
    assert_eq!(c.get(4, 4), px(80, 80, 90, 255));
    assert_eq!(c.get(5, 5), px(40, 40, 48, 255));
    assert_eq!(c.get(51, 51), px(80, 80, 90, 255));
    assert_eq!(c.get(308, 4), px(5, 0, 0, 255));
    assert_eq!(c.get(317, 11), px(5, 0, 0, 255));
    assert_eq!(c.get(318, 4), px(20, 20, 24, 255));
    let with = result(r#"{"players":{"sample":[{"name":"x"}]}}"#, None);
    let c = render_server_card(&a, &with, &opts);
    assert_eq!((c.width(), c.height()), (347, 56));
    assert_eq!(c.get(329, 4), px(38, 0, 95, 255));
    assert_eq!(c.get(335, 4), px(38, 0, 95, 255));
    assert_eq!(c.get(335, 18), px(24, 0, 52, 255));
    assert_eq!(c.get(329, 5), px(37, 0, 92, 255));
    assert_eq!(c.get(342, 17), px(25, 0, 57, 255));
    assert_eq!(c.get(330, 5), px(16, 0, 16, 255));
    let big = render_server_card(&a, &r, &CardOptions { checker: false, ..CardOptions::default() });
    assert_eq!((big.width(), big.height()), (327 * 4, 56 * 4));
    let png = render_server_card_png(&a, &r, &opts).unwrap();
    let back = image::load_from_memory(&png).unwrap();
    assert_eq!((back.width(), back.height()), (327, 56));
}

#[test]
fn boxes_grow_with_their_lines() {
    let a = assets();
    let opts = CardOptions { scale: 1, ..CardOptions::default() };
    let many: Vec<String> = (0..9).map(|_| "{\"name\":\"abcdefghijklmnopqrstuvwxyzabcdefghij\"}".to_string()).collect();
    let r = result(&format!("{{\"players\":{{\"sample\":[{}]}}}}", many.join(",")), None);
    let lay = card::entry_layout(&a.font, &r, &None, 1);
    assert_eq!(lay.sample.len(), 5);
    assert_eq!(lay.content_w, 200);
    assert_eq!(lay.full_w, 539);
    let c = render_server_card(&a, &r, &opts);
    assert_eq!(c.width(), 539);
    assert_eq!(c.get(331, 51), px(24, 0, 52, 255));
    assert_eq!(c.get(331, 52), px(20, 20, 24, 255));
}

#[test]
fn icons_of_servers() {
    let a = assets();
    let icon = file(2, 2, px(9, 8, 7, 255));
    let data = base64::Engine::encode(&base64::engine::general_purpose::STANDARD, &icon);
    let r = result(&format!("{{\"favicon\":\"data:image/png;base64,{data}\"}}"), None);
    assert_eq!(gui::load_icon(&r.status).unwrap().width(), 2);
    let c = render_server_card(&a, &r, &CardOptions { scale: 1, ..CardOptions::default() });
    assert_eq!(c.get(4, 4), px(9, 8, 7, 255));
    assert_eq!(c.get(51, 51), px(9, 8, 7, 255));
    let none = result(r#"{"favicon":"data:image/png;base64,AAAA"}"#, None);
    assert!(gui::load_icon(&none.status).is_none());
}

#[test]
fn the_screen_with_one_server() {
    let a = assets();
    let r = result(r#"{"description":"hi","players":{"online":1,"max":2}}"#, Some(400));
    assert!(screen::select_can_be_drawn(&r, 0, &None));
    let opts = ScreenOptions { scale: 0, ..ScreenOptions::default() };
    let c = render_select_server_screen(&a, &r, &opts);
    assert_eq!((c.width(), c.height()), (427, 240));
    assert_eq!(c.get(0, 0), px(50, 25, 10, 255));
    assert_eq!(c.get(0, 60), px(25, 12, 5, 255));
    assert_eq!(c.get(0, 32), px(0, 0, 0, 255));
    assert_eq!(c.get(0, 33), px(6, 2, 1, 255));
    assert_eq!(c.get(0, 175), px(0, 0, 0, 255));
    assert_eq!(c.get(0, 176), px(50, 25, 10, 255));
    assert_eq!(c.get(61, 34), px(255, 255, 255, 255));
    assert_eq!(c.get(364, 69), px(255, 255, 255, 255));
    assert_eq!(c.get(365, 69), px(25, 12, 5, 255));
    for y in 34..70 {
        assert_eq!(c.get(61, y), px(255, 255, 255, 255));
    }
    assert_eq!(c.get(61, 33), px(6, 2, 1, 255));
    assert_eq!(c.get(62, 35), px(0, 0, 0, 255));
    assert_eq!(c.get(63, 36), px(80, 80, 90, 255));
    assert_eq!(c.get(353, 36), px(3, 0, 0, 255));
    assert_eq!(c.get(59, 188), px(0, 0, 250, 255));
    assert_eq!(c.get(367, 231), px(0, 0, 250, 255));
    let png = render_select_server_png(&a, &r, &ScreenOptions::default()).unwrap();
    let back = image::load_from_memory(&png).unwrap();
    assert_eq!((back.width(), back.height()), (427 * 4, 240 * 4));
}

#[test]
fn the_screen_with_several_servers() {
    let a = assets();
    let entry = |name: &str, up: bool| ListEntry {
        name: name.to_string(),
        result: if up { Some(result("{}", Some(1))) } else { None },
    };
    let opts = ScreenOptions { scale: 1, ..ScreenOptions::default() };
    let few = vec![entry("a", true), entry("b", false)];
    assert!(screen::list_can_be_drawn(&few, 1));
    let c = render_server_list_screen(&a, &few, &opts);
    assert_eq!((c.width(), c.height()), (427, 240));
    assert_eq!(c.get(353, 36), px(5, 0, 0, 255));
    assert_eq!(c.get(353, 72), px(77, 0, 0, 255));
    assert_eq!(c.get(63, 72), px(80, 80, 90, 255));
    let many: Vec<ListEntry> = (0..5).map(|i| entry("n", i % 2 == 0)).collect();
    let c = render_server_list_screen(&a, &many, &opts);
    assert_eq!(c.height(), 284);
    assert_eq!(render_server_list_screen(&a, &Vec::new(), &opts).height(), 240);
    assert!(!screen::list_can_be_drawn(&few, 0x20_0000));
    let png = render_server_list_png(&a, &few, &opts).unwrap();
    assert_eq!(image::load_from_memory(&png).unwrap().height(), 240);
}

#[test]
fn shadows_fade_from_an_edge() {
    let mut c = Canvas::filled_with(4, 12, px(255, 255, 255, 255));
    gui::shadow_edge(&mut c, 2, 1, 4, 2, true);
    let at = |c: &Canvas, y: u32| c.get(0, y).r;
    assert_eq!([at(&c, 1), at(&c, 2), at(&c, 4), at(&c, 6), at(&c, 8)], [255, 0, 63, 127, 191]);
    assert_eq!(at(&c, 10), 255);
    let mut c = Canvas::filled_with(4, 12, px(255, 255, 255, 255));
    gui::shadow_edge(&mut c, 1, 5, 4, 2, false);
    assert_eq!([at(&c, 10), at(&c, 9), at(&c, 6), at(&c, 2), at(&c, 0)], [255, 0, 63, 191, 255]);
    assert_eq!(c.get(2, 9).r, 255);
}

#[test]
fn buttons_show_both_ends_of_their_picture() {
    let mut tex = Canvas::filled_with(200, 20, px(0, 0, 0, 255));
    for y in 0..20 {
        for x in 0..200 {
            tex.put(x, y, px(x as u8, y as u8, 0, 255));
        }
    }
    let a = assets();
    let ctx = Ctx { font: &a.font, opts: RenderOptions { scale: 1, ..RenderOptions::default() }, fg: (0, 0, 0) };
    let mut c = Canvas::filled_with(120, 30, px(0, 0, 0, 0));
    gui::draw_button(&mut c, &ctx, &tex, 2, 3, 75, "");
    assert_eq!(c.get(2, 3), px(0, 0, 0, 255));
    assert_eq!(c.get(38, 22), px(36, 19, 0, 255));
    assert_eq!(c.get(39, 3), px(162, 0, 0, 255));
    assert_eq!(c.get(76, 3), px(199, 0, 0, 255));
    assert_eq!(c.get(77, 3), px(0, 0, 0, 0));
}

#[test]
fn dirt_is_two_pixels_wide_and_repeats() {
    let mut dirt = Canvas::filled_with(2, 1, px(80, 40, 8, 9));
    dirt.put(1, 0, px(255, 0, 4, 9));
    let mut c = Canvas::filled_with(10, 2, px(0, 0, 0, 0));
    gui::fill_dirt_region(&mut c, &dirt, 1, 0, 7, 1, 1, 4);
    let row: Vec<u8> = (0..10).map(|x| c.get(x, 0).r).collect();
    assert_eq!(row, vec![0, 20, 63, 63, 20, 20, 63, 63, 0, 0]);
    assert_eq!(c.get(1, 0), px(20, 10, 2, 255));
    assert_eq!(c.get(1, 1), px(0, 0, 0, 0));
}

#[test]
fn editions() {
    assert_eq!(api::parse_edition(None), api::Edition::Auto);
    assert_eq!(api::parse_edition(Some("JE")), api::Edition::Java);
    assert_eq!(api::parse_edition(Some("java")), api::Edition::Java);
    assert_eq!(api::parse_edition(Some("Bedrock")), api::Edition::Bedrock);
    assert_eq!(api::parse_edition(Some("be")), api::Edition::Bedrock);
    assert_eq!(api::parse_edition(Some("x")), api::Edition::Auto);
}

#[test]
fn editions_are_tried_in_turn() {
    assert!(matches!(api::first_fetch(api::Edition::Auto), api::Fetch::PingJava));
    assert!(matches!(api::first_fetch(api::Edition::Java), api::Fetch::PingJava));
    assert!(matches!(api::first_fetch(api::Edition::Bedrock), api::Fetch::PingBedrock(None)));
    let failed = api::after_java(api::Edition::Java, Err(PingError::Timeout));
    assert!(matches!(failed, api::Fetch::Done(Err(m)) if m == "连接超时"));
    let java = match api::after_java(api::Edition::Auto, Err(PingError::Timeout)) {
        api::Fetch::PingBedrock(m) => m,
        _ => panic!("Bedrock is owed"),
    };
    let both = api::after_bedrock(java, Err(PingError::Io("x".to_string())));
    assert!(matches!(both, Err(m) if m == "JE: 连接超时 | BE: 网络错误: x"));
    let only = api::after_bedrock(None, Err(PingError::Timeout));
    assert!(matches!(only, Err(m) if m == "连接超时"));
    let ok = api::after_java(api::Edition::Auto, Ok(result("{}", None)));
    assert!(matches!(ok, api::Fetch::Done(Ok((_, api::Edition::Java)))));
    let b = BedrockResult {
        status: bedrock::parse_motd("MCPE;m;1"),
        address: ResolvedAddress { host: "h".to_string(), port: 1, via_srv: false },
    };
    let (r, ed) = api::after_bedrock(None, Ok(b)).unwrap();
    assert_eq!(ed, api::Edition::Bedrock);
    assert_eq!(r.status.description.plain(), "m");
}

#[test]
fn answers_to_requests() {
    let r = result(
        r#"{"version":{"name":"v","protocol":5},"description":"§ahi","favicon":"f",
            "players":{"online":3,"max":10,"sample":[{"name":"A"},{"name":"B"}]}}"#,
        Some(7),
    );
    let p = api::to_json(api::Edition::Java, &r);
    assert_eq!((p.host.as_str(), p.port, p.via_srv), ("example.org", 25565, false));
    assert_eq!(p.edition, "java");
    assert_eq!((p.online, p.max, p.protocol, p.latency_ms), (3, 10, 5, Some(7)));
    assert_eq!((p.version.as_deref(), p.motd.as_str(), p.favicon.as_deref()), (Some("v"), "hi", Some("f")));
    assert_eq!(p.players, vec!["A", "B"]);
    let q = api::to_json(api::Edition::Bedrock, &result("{}", None));
    assert_eq!((q.edition.as_str(), q.online, q.max), ("bedrock", 0, 0));
    assert!(q.players.is_empty());
}

#[test]
fn lists_of_hosts_and_names() {
    let hosts = api::split_hosts(" a, ,b:1,, c ");
    assert_eq!(hosts, vec!["a", "b:1", "c"]);
    assert!(api::split_hosts(" , ").is_empty());
    assert_eq!(api::entry_names(&hosts, Some("X, ,Z,W")), vec!["X", "b:1", "Z"]);
    assert_eq!(api::entry_names(&hosts, Some("")), vec!["a", "b:1", "c"]);
    assert_eq!(api::entry_names(&hosts, None), vec!["a", "b:1", "c"]);
    assert!(api::wants_card(Some("card")));
    assert!(!api::wants_card(Some("Card")) && !api::wants_card(None));
}

#[test]
fn lists_of_cards() {
    let a = assets();
    let up = |name: &str| ListEntry { name: name.to_string(), result: Some(result("{}", None)) };
    let down = ListEntry { name: "d".to_string(), result: None };
    let list = vec![up("x"), down, up("y")];
    assert_eq!(api::count_unreachable(&list), 1);
    assert!(api::cards_can_be_drawn(&list));
    let c = api::render_card_list(&a, &list).unwrap();
    assert_eq!((c.width(), c.height()), (327 * 4, 224 * 2 + 16));
    assert_eq!(c.get(16, 240 + 16), px(80, 80, 90, 255));
    let none = vec![ListEntry { name: "d".to_string(), result: None }];
    assert!(api::render_card_list(&a, &none).is_none());
}

#[test]
fn colors_that_there_are_not_stop_a_card() {
    let mut r = result("{}", None);
    assert!(card_can_be_drawn(&r, 4, &None));
    assert!(!card_can_be_drawn(&r, 0, &None));
    let mut bad = Component::text("x");
    bad.style.color = Some(mcping_api::minecraft::color::Color::Named(99));
    r.status.description = bad;
    assert!(!card_can_be_drawn(&r, 4, &None));
    assert!(!screen::select_can_be_drawn(&r, 4, &None));
}

#[test]
fn replies_to_requests_for_pictures() {
    let a = assets();
    let r = result("{}", Some(1));
    assert!(api::image_is_ready(&r, None, &None));
    let screen = api::image_reply(&a, &r, None, None);
    assert_eq!((screen.status, screen.unreachable), (200, None));
    let img = image::load_from_memory(&screen.png.unwrap()).unwrap();
    assert_eq!((img.width(), img.height()), (1708, 960));
    let card = api::image_reply(&a, &r, Some("card"), Some("n".to_string()));
    let img = image::load_from_memory(&card.png.unwrap()).unwrap();
    assert_eq!((img.width(), img.height()), (1308, 224));
    let no = api::refuse("why".to_string());
    assert_eq!((no.status, no.text.as_str()), (502, "why"));
    assert!(no.png.is_none());
    let broken = api::show(Err("e".to_string()), Some(3));
    assert_eq!((broken.status, broken.text.as_str(), broken.unreachable), (500, "e", None));
}

#[test]
fn replies_to_requests_for_lists() {
    let a = assets();
    match api::plan_list(" , ", None) {
        Err(r) => assert_eq!((r.status, r.text.as_str()), (400, "no hosts")),
        Ok(_) => panic!("there is no host"),
    }
    let plan = match api::plan_list("a, b", Some(",B")) {
        Ok(p) => p,
        Err(_) => panic!("there are hosts"),
    };
    let want = [("a", "a"), ("b", "B")].map(|(h, n)| (h.to_string(), n.to_string()));
    assert_eq!(plan, want.to_vec());
    let up = ListEntry { name: "u".to_string(), result: Some(result("{}", None)) };
    let down = || ListEntry { name: "d".to_string(), result: None };
    let list = vec![down(), up];
    assert!(api::list_is_ready(&list, Some("card")) && api::list_is_ready(&list, None));
    let cards = api::list_reply(&a, &list, Some("card"));
    assert_eq!((cards.status, cards.unreachable), (200, Some(1)));
    let img = image::load_from_memory(&cards.png.unwrap()).unwrap();
    assert_eq!((img.width(), img.height()), (1308, 224));
    let screen = api::list_reply(&a, &list, Some("screen"));
    assert_eq!((screen.status, screen.unreachable), (200, None));
    let none = api::list_reply(&a, &vec![down()], Some("card"));
    assert_eq!((none.status, none.text.as_str()), (502, "all hosts unreachable"));
    assert!(none.png.is_none());
}
