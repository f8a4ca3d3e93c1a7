use mcping_api::minecraft::query;

fn answer(kv: &[(&str, &str)], players: &[&str]) -> Vec<u8> {
    let mut b = vec![0, 0, 0, 0, 1];
    b.extend_from_slice(b"splitnum\0\x80\0");
    for (k, v) in kv {
        b.extend_from_slice(k.as_bytes());
        b.push(0);
        b.extend_from_slice(v.as_bytes());
        b.push(0);
    }
    b.push(0);
    b.extend_from_slice(b"\x01player_\0\0");
    for p in players {
        b.extend_from_slice(p.as_bytes());
        b.push(0);
    }
    b.push(0);
    b
}

#[test]
fn requests_have_their_known_bytes() {
    assert_eq!(query::build_handshake(), vec![0xFE, 0xFD, 9, 0, 0, 0, 1]);
    assert_eq!(
        query::build_full_stat(0x0102_0304),
        vec![0xFE, 0xFD, 0, 0, 0, 0, 1, 1, 2, 3, 4, 0, 0, 0, 0]
    );
    assert_eq!(&query::build_full_stat(-1)[7..11], &[0xFF, 0xFF, 0xFF, 0xFF]);
}

#[test]
fn tokens() {
    assert!(matches!(query::parse_token(b"\x09\0\0\0\x01 9513307 \0"), Ok(9513307)));
    assert!(matches!(query::parse_token(b"\x09\0\0\0\x01-12"), Ok(-12)));
    assert_eq!(
        query::parse_token(b"\x09\0\0\0\x01").unwrap_err().message(),
        "协议错误: query 握手响应异常"
    );
    assert_eq!(
        query::parse_token(b"\x00\0\0\0\x011\0").unwrap_err().message(),
        "协议错误: query 握手响应异常"
    );
    assert_eq!(
        query::parse_token(b"\x09\0\0\0\x01x\0").unwrap_err().message(),
        "协议错误: challenge token 非整数"
    );
}

#[test]
fn texts_end_with_a_zero_byte() {
    assert_eq!(query::read_cstr(b"ab\0cd", 0), ("ab".to_string(), 3));
    assert_eq!(query::read_cstr(b"ab\0cd", 3), ("cd".to_string(), 6));
    assert_eq!(query::read_cstr(b"ab", 2), (String::new(), 3));
    assert_eq!(query::read_cstr(b"a\xFFb\0", 0).0, "a\u{FFFD}b");
}

#[test]
fn whole_answers() {
    let resp = answer(
        &[
            ("hostname", "A §bServer"),
            ("gametype", "SMP"),
            ("version", "1.20"),
            ("plugins", "Paper: x; y"),
            ("map", "world"),
            ("numplayers", " 2"),
            ("maxplayers", "20"),
            ("hostport", "25565"),
            ("hostip", "127.0.0.1"),
            ("map", "other"),
        ],
        &["Ann", "Bob"],
    );
    assert!(query::keys_are_terminated(&resp));
    let q = query::parse_full(&resp, 12).unwrap();
    assert_eq!(q.motd, "A §bServer");
    assert_eq!(q.gametype, "SMP");
    assert_eq!(q.version, "1.20");
    assert_eq!(q.plugins, "Paper: x; y");
    assert_eq!(q.map, "other");
    assert_eq!((q.online, q.max, q.host_port, q.latency), (2, 20, 25565, 12));
    assert_eq!(q.host_ip, "127.0.0.1");
    assert_eq!(q.players, vec!["Ann", "Bob"]);
    let keys: Vec<&str> = q.kv.iter().map(|(k, _)| k.as_str()).collect();
    assert_eq!(
        keys,
        vec![
            "gametype", "hostip", "hostname", "hostport", "map", "maxplayers", "numplayers",
            "plugins", "version"
        ]
    );
}

#[test]
fn odd_answers() {
    assert!(query::keys_are_terminated(&[1; 20]));
    assert!(query::keys_are_terminated(&[0; 15]));
    assert_eq!(
        query::parse_full(&[1; 20], 0).unwrap_err().message(),
        "协议错误: query full-stat 响应异常"
    );
    assert!(query::parse_full(&[0; 15], 0).is_err());
    let q = query::parse_full(&[0; 16], 0).unwrap();
    assert_eq!((q.online, q.max, q.host_port), (-1, -1, 0));
    assert!(q.players.is_empty() && q.kv.is_empty());
    let mut cut = vec![0u8; 16];
    cut.extend_from_slice(b"key");
    assert!(!query::keys_are_terminated(&cut));
    cut.push(0);
    assert!(query::keys_are_terminated(&cut));
    let q = query::parse_full(&cut, 0).unwrap();
    assert_eq!(q.kv, vec![("key".to_string(), String::new())]);
}

#[test]
fn players_stand_behind_their_marker() {
    assert_eq!(query::parse_players(b"xx\x01player_\0\0a\0b\0\0c\0"), vec!["a", "b"]);
    assert_eq!(query::parse_players(b"\x01player_\0a"), vec!["a"]);
    assert!(query::parse_players(b"player_\0\0a\0").is_empty());
    assert!(query::parse_players(b"").is_empty());
}

#[test]
fn the_default_result_is_empty() {
    let q = query::QueryResult::default();
    assert!(q.motd.is_empty() && q.players.is_empty() && q.kv.is_empty());
    assert_eq!((q.online, q.max, q.host_port, q.latency), (0, 0, 0, 0));
}
