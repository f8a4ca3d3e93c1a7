use mcping_api::minecraft::codec;
use mcping_api::minecraft::json;
use mcping_api::minecraft::json::Json;
use mcping_api::minecraft::protocol;
use mcping_api::minecraft::status;
use mcping_api::minecraft::status::{ModLoader, StatusResponse};

fn read(raw: &str) -> StatusResponse {
    StatusResponse::from_value(&json::parse(raw).unwrap(), &Vec::new())
}

#[test]
fn json_values_are_taken_apart() {
    let v = json::parse(r#"{"a":[1,2.5,"x",null,true],"b":{"c":-7}} trailing"#).unwrap();
    let a = v.get("a").unwrap().as_array().unwrap();
    assert_eq!(a.len(), 5);
    assert!(matches!(&a[0], Json::Number(Some(1), t) if t == "1"));
    assert!(matches!(&a[1], Json::Number(None, t) if t == "2.5"));
    assert_eq!(a[2].as_str(), Some("x"));
    assert!(matches!(a[3], Json::Null));
    assert_eq!(a[4].as_bool_lenient(), Some(true));
    assert!(matches!(v.get("b").unwrap().get("c"), Some(Json::Number(Some(-7), _))));
    assert!(v.get("d").is_none());
    assert!(a[2].get("x").is_none());
    let copy = v.duplicate();
    assert_eq!(copy.text_member("a"), None);
    assert_eq!(copy.get("a").unwrap().as_array().unwrap().len(), 5);
}

#[test]
fn text_that_is_no_json_is_refused_with_the_complaint_of_the_parser() {
    let raw = "{\"a\":";
    let want = serde_json::from_str::<serde_json::Value>(raw).unwrap_err().to_string();
    assert_eq!(json::parse(raw).unwrap_err(), want);
    let e = protocol::parse_status(raw, &Vec::new()).unwrap_err();
    assert_eq!(e.message(), format!("状态 JSON 解析失败: {want}"));
}

#[test]
fn a_whole_status() {
    let s = read(
        r#"{"version":{"name":"Paper 1.21","protocol":767,"supportedVersions":[47,"340",767]},
            "players":{"max":100,"online":"7","sample":[{"name":"Ann","id":"1"},{"id":"2"},5]},
            "description":{"text":"Hi","bold":true},"favicon":"data:image/png;base64,AAAA",
            "enforcesSecureChat":true,"previewsChat":"false","preventsChatReports":"true",
            "isModded":false,"betterStatus":{"name":" Pack ","version":"??"}}"#,
    );
    assert_eq!(s.version.name.as_deref(), Some("Paper 1.21"));
    assert_eq!(s.version.protocol, 767);
    assert_eq!(s.version.supported_versions, vec![47, 340, 767]);
    let p = s.players.as_ref().unwrap();
    assert_eq!((p.max, p.online), (100, 7));
    let names: Vec<&str> = p.sample.iter().map(|x| x.name.as_str()).collect();
    assert_eq!(names, vec!["Ann", "", ""]);
    assert_eq!(p.sample[1].id, "2");
    assert_eq!(s.description.plain(), "Hi");
    assert_eq!(s.enforces_secure_chat, Some(true));
    assert_eq!(s.previews_chat, Some(false));
    assert_eq!(s.prevents_chat_reports, Some(true));
    assert_eq!(s.is_modded, Some(false));
    let m = s.modpack.as_ref().unwrap();
    assert_eq!((m.name.as_str(), m.version.as_str()), ("Pack", ""));
    assert!(s.mods().is_none());
}

#[test]
fn missing_and_wrong_members_spoil_nothing_else() {
    let s = read("{}");
    assert_eq!(s.version.protocol, 0);
    assert!(s.version.name.is_none() && s.players.is_none() && s.favicon.is_none());
    assert_eq!(s.description.plain(), "");
    let s = read(
        r#"{"version":[1],"players":"no","description":7,"favicon":1,"isModded":"yes","betterStatus":3}"#,
    );
    assert_eq!(s.version.protocol, 0);
    assert!(s.players.is_none());
    assert_eq!(s.description.plain(), "7");
    assert_eq!(s.is_modded, None);
    assert!(s.modpack.is_none());
    let s = read(r#"{"players":{"sample":"x","online":null,"max":true}}"#);
    let p = s.players.unwrap();
    assert_eq!((p.max, p.online, p.sample.len()), (0, 0, 0));
    assert_eq!(read("[]").version.protocol, 0);
}

#[test]
fn modpacks() {
    let s = read(r#"{"better-status":{"name":"A","version":"1"}}"#);
    assert_eq!(s.modpack.unwrap().version, "1");
    let s = read(r#"{"betterStatus":{"name":"??","version":" "},"better-status":{"name":"B"}}"#);
    assert!(s.modpack.is_none());
}

#[test]
fn numbers_that_are_no_integers_need_a_reading() {
    let raw = r#"{"version":{"protocol":47.9,"supportedVersions":["1e2",3]},
                  "players":{"max":" 12.5 ","online":99999999999999999999}}"#;
    let texts = protocol::status_numbers(raw);
    let v = json::parse(raw).unwrap();
    assert_eq!(texts, status::unread_numbers(&v));
    let wide: serde_json::Value = serde_json::from_str("99999999999999999999").unwrap();
    let wide = wide.to_string();
    assert_eq!(texts, vec!["47.9", "1e2", "12.5", wide.as_str()]);
    let readings: Vec<(String, i64)> = texts
        .iter()
        .filter_map(|t| t.parse::<f64>().ok().map(|f| (t.clone(), f as i64)))
        .collect();
    let s = StatusResponse::from_value(&v, &readings);
    assert_eq!(s.version.protocol, 47);
    assert_eq!(s.version.supported_versions, vec![100, 3]);
    let p = s.players.unwrap();
    assert_eq!((p.max, p.online), (12, i64::MAX));
    let without = StatusResponse::from_value(&v, &Vec::new());
    assert_eq!(without.version.protocol, 0);
    assert!(protocol::status_numbers("no json").is_empty());
}

#[test]
fn large_numbers_are_clamped() {
    let s = read(r#"{"version":{"protocol":9999999999,"supportedVersions":[-9999999999]}}"#);
    assert_eq!(s.version.protocol, i32::MAX);
    assert_eq!(s.version.supported_versions, vec![i32::MIN]);
    let v = json::parse("\" 42 \"").unwrap();
    assert_eq!(status::as_i64_lenient(&v, &Vec::new()), 42);
}

#[test]
fn favicons_may_have_any_prefix_and_white_space() {
    let icon = |f: &str| read(&format!("{{\"favicon\":\"{f}\"}}")).favicon_png();
    assert_eq!(icon("data:image/png;base64,aGVsbG8="), Some(b"hello".to_vec()));
    assert_eq!(icon("data:image/jpeg;base64,aGVs\\nbG8 ="), Some(b"hello".to_vec()));
    assert_eq!(icon("aGVsbG8="), Some(b"hello".to_vec()));
    assert_eq!(icon("data:image/png;base64,"), None);
    assert_eq!(icon("a*b"), None);
    assert_eq!(read("{}").favicon_png(), None);
    assert_eq!(status::favicon_payload("x base64,a b\tc"), "abc");
    assert_eq!(status::non_empty(Some(vec![])), None);
    assert_eq!(status::non_empty(Some(vec![1])), Some(vec![1]));
    assert_eq!(status::non_empty(None), None);
}

#[test]
fn old_forge_mods() {
    let s = read(
        r#"{"modinfo":{"type":"FML","modList":[{"modid":"a","version":"1"},{"modid":"b"},{"version":"x"}]}}"#,
    );
    let m = s.mods().unwrap();
    assert_eq!(m.loader, ModLoader::Forge);
    assert_eq!(m.mods, vec![("a".to_string(), "1".to_string()), ("b".to_string(), String::new())]);
    assert_eq!((m.mod_count, m.channel_count, m.truncated), (Some(2), None, false));
    assert!(read(r#"{"modinfo":{"type":"other"}}"#).mods().is_none());
    assert_eq!(read(r#"{"modinfo":{"type":"FML"}}"#).mods().unwrap().mod_count, Some(0));
}

#[test]
fn newer_forge_mods() {
    let s = read(
        r#"{"forgeData":{"channels":[1,2],"truncated":true,"mods":[{"modId":"a","modmarker":"m"},{}]},"isModded":true}"#,
    );
    let m = s.mods().unwrap();
    assert_eq!(m.mods, vec![("a".to_string(), "m".to_string())]);
    assert_eq!((m.mod_count, m.channel_count, m.truncated), (Some(1), Some(2), true));
    let m = read(r#"{"forgeData":5}"#).mods().unwrap();
    assert_eq!((m.mod_count, m.channel_count, m.truncated), (None, None, false));
    let m = read(r#"{"isModded":true}"#).mods().unwrap();
    assert_eq!(m.loader, ModLoader::Modded);
    assert_eq!(m.mod_count, None);
}

#[test]
fn packed_forge_mods() {
    let mut b = vec![0u8, 0, 1];
    codec::write_varint(&mut b, 1);
    codec::write_string(&mut b, "m");
    codec::write_varint(&mut b, 0);
    let value = b.iter().rev().fold(0u128, |v, x| v * 256 + *x as u128);
    let mut d = String::new();
    d.push(char::from_u32(b.len() as u32).unwrap());
    d.push('\0');
    for i in 0..(b.len() * 8).div_ceil(15) {
        d.push(char::from_u32(((value >> (15 * i)) & 0x7FFF) as u32).unwrap());
    }
    let fd = Json::Object(vec![
        ("mods".to_string(), Json::Array(vec![])),
        ("d".to_string(), Json::Text(d)),
    ]);
    let m = status::parse_forge_data(&fd);
    assert_eq!(m.mods, vec![("m".to_string(), String::new())]);
    assert_eq!((m.mod_count, m.channel_count), (Some(1), Some(0)));
}

#[test]
fn readings_of_other_texts_do_not_matter() {
    let v = json::parse(r#"{"version":{"protocol":"1.9"},"players":{"max":5}}"#).unwrap();
    let one = vec![("1.9".to_string(), 1)];
    let more = vec![("5".to_string(), 77), ("1.9".to_string(), 1), ("1.9".to_string(), 3)];
    let a = StatusResponse::from_value(&v, &one);
    let b = StatusResponse::from_value(&v, &more);
    assert_eq!((a.version.protocol, b.version.protocol), (1, 1));
    assert_eq!((a.players.unwrap().max, b.players.unwrap().max), (5, 5));
}

#[test]
fn default_players_and_modpacks_are_empty() {
    let p = status::Player::default();
    assert!(p.name.is_empty() && p.id.is_empty());
    let m = status::Modpack::default();
    assert!(m.name.is_empty() && m.version.is_empty());
}
