use mcping_api::minecraft::codec;
use mcping_api::minecraft::legacy::LegacyStatus;
use mcping_api::minecraft::protocol;
use mcping_api::minecraft::protocol::{
    AfterPing, FrameLen, FrameStep, PingError, PingOptions, Resolve, ResolvedAddress,
};

fn addr() -> ResolvedAddress {
    ResolvedAddress { host: "h".to_string(), port: 1, via_srv: false }
}

fn body(mut packet: Vec<u8>) -> Vec<u8> {
    let n = packet.iter().position(|b| *b < 128).unwrap() + 1;
    packet.drain(..n);
    packet
}

#[test]
fn addresses() {
    let ok = |s: &str| protocol::parse_address(s).unwrap();
    let at = |h: &str, p: u16, e: bool| (h.to_string(), p, e);
    assert_eq!(ok("mc.example.org"), at("mc.example.org", 25565, false));
    assert_eq!(ok(" mc.example.org:1234 "), at("mc.example.org", 1234, true));
    assert_eq!(ok("1.2.3.4"), at("1.2.3.4", 25565, false));
    assert_eq!(ok("[::1]"), at("::1", 25565, false));
    assert_eq!(ok("[::1]:7"), at("::1", 7, true));
    assert_eq!(ok("[::1]x"), at("::1", 25565, false));
    assert_eq!(ok("fe80::1"), at("fe80::1", 25565, false));
    assert_eq!(ok(":5"), at("", 5, true));
    let err = |s: &str| protocol::parse_address(s).unwrap_err().message();
    assert_eq!(err("  "), "地址无法解析: 地址为空");
    assert_eq!(err("[::1"), "地址无法解析: IPv6 缺 ]");
    assert_eq!(err("h:x"), "地址无法解析: 端口非法");
    assert_eq!(err("h:65536"), "地址无法解析: 端口非法");
    assert_eq!(err("[::1]:"), "地址无法解析: 端口非法");
}

#[test]
fn error_messages_by_kind() {
    assert_eq!(PingError::Io("x".to_string()).message(), "网络错误: x");
    assert_eq!(PingError::Timeout.message(), "连接超时");
    assert_eq!(PingError::Protocol("y".to_string()).message(), "协议错误: y");
}

#[test]
fn targets() {
    let opts = PingOptions::default();
    assert!(protocol::looks_for_srv(&opts, false, false));
    assert!(!protocol::looks_for_srv(&opts, true, false));
    assert!(!protocol::looks_for_srv(&opts, false, true));
    let off = PingOptions { use_srv: false, ..opts };
    assert!(!protocol::looks_for_srv(&off, false, false));
    let t = protocol::resolve_target("h", 1, Some(("t".to_string(), 2)));
    assert_eq!((t.connect_host.as_str(), t.connect_port, t.handshake_host.as_str(), t.via_srv), ("t", 2, "t", true));
    let t = protocol::resolve_target("h", 1, None);
    assert_eq!((t.connect_host.as_str(), t.connect_port, t.handshake_host.as_str(), t.via_srv), ("h", 1, "h", false));
}

#[test]
fn default_options() {
    let o = PingOptions::default();
    assert_eq!(o.protocol_version, -1);
    assert_eq!(o.timeout, 5000);
    assert!(o.use_srv && o.measure_latency && o.allow_legacy);
    assert_eq!(protocol::options_as(&o, Some(47)).protocol_version, 47);
    assert_eq!(protocol::options_as(&o, None).protocol_version, -1);
}

#[test]
fn frame_lengths_have_at_most_three_bytes() {
    for n in [1u32, 127, 128, 16383, 16384, 2097151] {
        let mut bytes = Vec::new();
        codec::write_varint(&mut bytes, n as i32);
        let mut f = FrameLen::new();
        for b in &bytes[..bytes.len() - 1] {
            assert_eq!(f.feed(*b), FrameStep::More);
        }
        assert_eq!(f.feed(bytes[bytes.len() - 1]), FrameStep::Length(n));
    }
    let mut f = FrameLen::new();
    assert_eq!(f.feed(0x80), FrameStep::More);
    assert_eq!(f.feed(0x80), FrameStep::More);
    assert_eq!(f.feed(0x80), FrameStep::TooLong);
    assert_eq!(protocol::frame_len_too_long().message(), "协议错误: 帧长 VarInt 超过 21 位");
}

#[test]
fn frame_lengths_are_checked() {
    assert!(matches!(protocol::check_frame_len(5, 10), Ok(5)));
    assert!(matches!(protocol::check_frame_len(10, 10), Ok(10)));
    assert_eq!(protocol::check_frame_len(11, 10).unwrap_err().message(), "协议错误: 帧长越界: 11");
    assert_eq!(protocol::check_frame_len(0, 10).unwrap_err().message(), "协议错误: 帧长越界: 0");
}

#[test]
fn status_frames() {
    let mut p = Vec::new();
    codec::write_string(&mut p, "{\"x\":1}");
    let frame = body(codec::packet(0, &p));
    assert_eq!(protocol::parse_status_frame(&frame).unwrap(), "{\"x\":1}");
    let wrong = body(codec::packet(3, &p));
    assert_eq!(
        protocol::parse_status_frame(&wrong).unwrap_err().message(),
        "协议错误: 状态响应包 ID 应为 0,得到 3"
    );
    assert_eq!(protocol::parse_status_frame(&[]).unwrap_err().message(), "网络错误: 包体读越界");
    assert_eq!(protocol::parse_status_frame(&[0, 5, 1]).unwrap_err().message(), "网络错误: 包体读越界");
    let hello = protocol::status_hello(47, "h", 1);
    let mut want = codec::handshake(47, "h", 1, 1);
    want.extend_from_slice(&codec::status_request());
    assert_eq!(hello, want);
}

#[test]
fn pongs() {
    let good = body(codec::ping_request(protocol::PING_PAYLOAD));
    assert_eq!(protocol::verify_pong(&good).unwrap(), None);
    let mut with_version = good.clone();
    codec::write_string(&mut with_version, " 1.2 ");
    codec::write_string(&mut with_version, "ip");
    assert_eq!(protocol::verify_pong(&with_version).unwrap(), Some("1.2".to_string()));
    let mut junk = good.clone();
    junk.push(200);
    assert_eq!(protocol::verify_pong(&junk).unwrap(), None);
    let other = body(codec::ping_request(5));
    assert_eq!(protocol::verify_pong(&other).unwrap_err().message(), "协议错误: pong 载荷不匹配");
    assert_eq!(
        protocol::verify_pong(&[0]).unwrap_err().message(),
        "协议错误: pong 包 ID 应为 1,得到 0"
    );
    assert_eq!(protocol::verify_pong(&[1, 2]).unwrap_err().message(), "网络错误: 包体读越界");
    assert_eq!(protocol::verify_pong(&[]).unwrap_err().message(), "网络错误: 包体读越界");
}

#[test]
fn outcomes() {
    let raw = r#"{"version":{"name":"v","protocol":5},"description":"d"}"#;
    let r = protocol::conclude(Some(9), raw.to_string(), Some(" 2.0".to_string()), addr(), &Vec::new())
        .unwrap();
    assert_eq!(r.latency, Some(9));
    assert_eq!(r.raw_json, raw);
    assert!(!r.is_legacy);
    let m = r.status.modpack.as_ref().unwrap();
    assert_eq!((m.name.as_str(), m.version.as_str()), ("", "2.0"));
    let named = r#"{"betterStatus":{"name":"P"}}"#;
    let r = protocol::conclude(None, named.to_string(), Some("2.0".to_string()), addr(), &Vec::new())
        .unwrap();
    assert_eq!(r.status.modpack.unwrap().name, "P");
    let r = protocol::conclude(None, "{}".to_string(), Some("  ".to_string()), addr(), &Vec::new())
        .unwrap();
    assert!(r.status.modpack.is_none());
    assert!(matches!(
        protocol::conclude(None, "x".to_string(), None, addr(), &Vec::new()),
        Err(PingError::Json(_))
    ));
}

fn old_server(online: i64, max: i64, version: &str) -> LegacyStatus {
    LegacyStatus {
        protocol: 78,
        version: version.to_string(),
        motd: "§amotd".to_string(),
        online,
        max,
    }
}

#[test]
fn outcomes_of_old_servers() {
    let r = protocol::from_legacy(old_server(1, 20, "1.6.4"), 33, addr());
    assert!(r.is_legacy);
    assert_eq!(r.latency, Some(33));
    assert_eq!(r.raw_json, "");
    assert_eq!(r.status.version.name.as_deref(), Some("1.6.4"));
    assert_eq!(r.status.version.protocol, 78);
    assert_eq!(r.status.description.plain(), "motd");
    let p = r.status.players.unwrap();
    assert_eq!((p.online, p.max), (1, 20));
    let r = protocol::from_legacy(old_server(-1, -1, ""), 1, addr());
    assert!(r.status.players.is_none() && r.status.version.name.is_none());
    assert!(protocol::from_legacy(old_server(-1, 3, ""), 1, addr()).status.players.is_some());
}

#[test]
fn old_servers_are_tried_after_a_failure() {
    let opts = PingOptions::default();
    match protocol::after_ping(Err(PingError::Timeout), &opts) {
        AfterPing::TryLegacy(e) => {
            let r = protocol::after_legacy(e, Ok((old_server(0, 1, ""), 5)), addr()).unwrap();
            assert!(r.is_legacy);
        }
        AfterPing::Done(_) => panic!("the old ping is owed"),
    }
    let off = PingOptions { allow_legacy: false, ..opts };
    assert!(matches!(
        protocol::after_ping(Err(PingError::Timeout), &off),
        AfterPing::Done(Err(PingError::Timeout))
    ));
    let failed = protocol::after_legacy(
        PingError::Protocol("first".to_string()),
        Err(PingError::Timeout),
        addr(),
    );
    assert_eq!(failed.unwrap_err().message(), "协议错误: first");
    let good = protocol::from_legacy(old_server(0, 1, ""), 5, addr());
    assert!(matches!(protocol::after_ping(Ok(good), &opts), AfterPing::Done(Ok(_))));
}

#[test]
fn proxies_are_probed() {
    let placeholder = r#"{"version":{"name":"ViaProxy","protocol":-1,"supportedVersions":[5,9,7]}}"#;
    let r = protocol::conclude(None, placeholder.to_string(), None, addr(), &Vec::new());
    assert!(!protocol::probe_succeeded(&r));
    let r = r.unwrap();
    assert!(protocol::is_proxy_placeholder(&r.status));
    assert_eq!(
        protocol::probe_candidates(&r.status.version.supported_versions, &[9, 9, 3, 9]),
        vec![9, 3, 9]
    );
    assert_eq!(protocol::probe_candidates(&Vec::new(), &[4, 4, 5]), vec![4, 5]);
    assert_eq!(protocol::max_of(&vec![-3, -1, -2]), Some(-1));
    assert_eq!(protocol::max_of(&Vec::new()), None);
    let real = r#"{"version":{"name":"ViaProxy","protocol":47}}"#;
    let r = protocol::conclude(None, real.to_string(), None, addr(), &Vec::new());
    assert!(protocol::probe_succeeded(&r));
    assert!(!protocol::probe_succeeded(&Err(PingError::Timeout)));
}

#[test]
fn proxies_are_probed_in_turn() {
    let fake = || {
        let raw = r#"{"version":{"name":"ViaProxy","protocol":-1}}"#;
        protocol::conclude(None, raw.to_string(), None, addr(), &Vec::new())
    };
    let real = || protocol::conclude(Some(1), "{}".to_string(), None, addr(), &Vec::new());
    assert!(matches!(protocol::begin_resolve(real(), &[5]), Resolve::Done(Ok(_))));
    assert!(matches!(
        protocol::begin_resolve(Err(PingError::Timeout), &[5]),
        Resolve::Done(Err(PingError::Timeout))
    ));
    assert!(matches!(protocol::begin_resolve(fake(), &[]), Resolve::Done(Ok(_))));
    let state = match protocol::begin_resolve(fake(), &[7, 5]) {
        Resolve::Probe(7, s) => s,
        _ => panic!("the first candidate is owed"),
    };
    let state = match protocol::after_probe(state, Err(PingError::Timeout)) {
        Resolve::Probe(5, s) => s,
        _ => panic!("the second candidate is owed"),
    };
    match protocol::after_probe(state, fake()) {
        Resolve::Done(Ok(r)) => assert_eq!(r.status.version.protocol, -1),
        _ => panic!("what was said first is owed"),
    }
    let state = match protocol::begin_resolve(fake(), &[7]) {
        Resolve::Probe(_, s) => s,
        Resolve::Done(_) => panic!("a candidate is owed"),
    };
    assert!(matches!(
        protocol::after_probe(state, real()),
        Resolve::Done(Ok(r)) if r.latency == Some(1)
    ));
    assert_eq!(protocol::after_measure(Ok((5, Some("v".to_string())))), (Some(5), Some("v".to_string())));
    assert_eq!(protocol::after_measure(Err(PingError::Timeout)), (None, None));
}
