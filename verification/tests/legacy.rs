use mcping_api::minecraft::legacy;

fn be(units: &[u16]) -> Vec<u8> {
    units.iter().flat_map(|u| u.to_be_bytes()).collect()
}

#[test]
fn utf16_agrees_with_the_standard_library() {
    for s in ["", "abc", "§1\0x", "汉字", "a\u{1F600}b", "\u{FFFF}\u{10000}\u{10FFFF}"] {
        let want: Vec<u16> = s.encode_utf16().collect();
        assert_eq!(legacy::encode_utf16(s), want);
        assert_eq!(legacy::decode_utf16_lossy(&want), s);
    }
    for units in [
        vec![0xD800],
        vec![0xDC00],
        vec![0xD800, 0x41],
        vec![0xD800, 0xD800, 0xDC00],
        vec![0xDC00, 0xD800],
        vec![0x41, 0xDBFF, 0xDFFF, 0xE000],
    ] {
        assert_eq!(legacy::decode_utf16_lossy(&units), String::from_utf16_lossy(&units));
    }
}

#[test]
fn the_request_has_its_known_bytes() {
    let r = legacy::build_request("h", 25565);
    let mut want = vec![0xFE, 0x01, 0xFA, 0, 11];
    want.extend(be(&"MC|PingHost".encode_utf16().collect::<Vec<_>>()));
    want.extend([0, 9, 0x7F, 0, 1, 0, b'h', 0, 0, 0x63, 0xDD]);
    assert_eq!(r, want);
    let mut b = vec![7];
    legacy::write_legacy_string(&mut b, "é");
    assert_eq!(b, vec![7, 0, 1, 0, 0xE9]);
}

#[test]
fn answers_start_with_a_known_byte() {
    assert!(legacy::check_first(0xFF).is_ok());
    assert_eq!(
        legacy::check_first(0x0A).unwrap_err().message(),
        "协议错误: 旧版响应包 ID 应为 0xFF,得到 0xa"
    );
    assert_eq!(
        legacy::check_first(0xE3).unwrap_err().message(),
        "协议错误: 旧版响应包 ID 应为 0xFF,得到 0xe3"
    );
    assert_eq!(legacy::body_len(300), 600);
    assert_eq!(legacy::body_len(65535), 131070);
}

#[test]
fn newer_answers() {
    let t = "§1\u{0}78\u{0}1.6.4\u{0}§aHello§r\u{0} 3 \u{0}20";
    let s = legacy::parse_legacy(t).unwrap();
    assert_eq!((s.protocol, s.online, s.max), (78, 3, 20));
    assert_eq!((s.version.as_str(), s.motd.as_str()), ("1.6.4", "§aHello§r"));
    let units: Vec<u16> = t.encode_utf16().collect();
    let again = legacy::parse_body(&be(&units)).unwrap();
    assert_eq!(again.motd, "§aHello§r");
    let bad = legacy::parse_legacy("§1\u{0}x\u{0}v\u{0}m\u{0}y\u{0}z").unwrap();
    assert_eq!((bad.protocol, bad.online, bad.max), (-1, -1, -1));
}

#[test]
fn ancient_answers() {
    let s = legacy::parse_legacy("A§bServer§5§10").unwrap();
    assert_eq!((s.protocol, s.online, s.max), (-1, 5, 10));
    assert_eq!((s.version.as_str(), s.motd.as_str()), ("", "A§bServer"));
    let few = legacy::parse_legacy("§1\u{0}78\u{0}x§7").unwrap();
    assert_eq!((few.motd.as_str(), few.max), ("", 7));
    assert_eq!(legacy::parse_legacy("nothing").unwrap_err().message(), "协议错误: 旧版响应无法解析");
    assert!(legacy::parse_legacy("a§b").is_err());
    assert!(legacy::parse_body(&[]).is_err());
    assert_eq!(legacy::parse_body(&[0, b'm', 0, 0xA7, 0, b'1', 0, 0xA7, 0, b'2', 9]).unwrap().max, 2);
}
