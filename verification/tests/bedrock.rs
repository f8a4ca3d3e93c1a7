use mcping_api::minecraft::bedrock;
use mcping_api::minecraft::bedrock::{AfterAttempt, BedrockOptions, BedrockResult, Event};
use mcping_api::minecraft::protocol::{PingError, ResolvedAddress};

const MAGIC: [u8; 16] = [
    0x00, 0xff, 0xff, 0x00, 0xfe, 0xfe, 0xfe, 0xfe, 0xfd, 0xfd, 0xfd, 0xfd, 0x12, 0x34, 0x56, 0x78,
];

fn pong(motd: &[u8], announced: u16) -> Vec<u8> {
    let mut d = vec![0x1C];
    d.extend_from_slice(&[0; 16]);
    d.extend_from_slice(&MAGIC);
    d.extend_from_slice(&announced.to_be_bytes());
    d.extend_from_slice(motd);
    d
}

fn addr() -> ResolvedAddress {
    ResolvedAddress { host: "h".to_string(), port: 19132, via_srv: false }
}

#[test]
fn the_ping_has_its_known_bytes() {
    let p = bedrock::build_ping(0x0102);
    assert_eq!(p.len(), 33);
    assert_eq!(&p[..9], &[1, 0, 0, 0, 0, 0, 0, 1, 2]);
    assert_eq!(&p[9..25], &MAGIC);
    assert_eq!(&p[25..], &[0x01, 0x23, 0x45, 0x67, 0x89, 0xAB, 0xCD, 0xEF]);
}

#[test]
fn pongs_of_servers() {
    assert_eq!(bedrock::parse_pong(&pong("MCPE;§a你".as_bytes(), 11)), Some("MCPE;§a你".to_string()));
    assert_eq!(bedrock::parse_pong(&pong(b"abcdef", 3)), Some("abc".to_string()));
    assert_eq!(bedrock::parse_pong(&pong(b"abc", 300)), Some("abc".to_string()));
    assert_eq!(bedrock::parse_pong(&pong(b"a\xFFc", 3)), Some("a\u{FFFD}c".to_string()));
    assert_eq!(bedrock::parse_pong(&pong(b"", 0)), Some(String::new()));
    let mut wrong = pong(b"abc", 3);
    wrong[20] ^= 1;
    assert_eq!(bedrock::parse_pong(&wrong), None);
    let mut wrong = pong(b"abc", 3);
    wrong[0] = 0x1D;
    assert_eq!(bedrock::parse_pong(&wrong), None);
    assert_eq!(bedrock::parse_pong(&pong(b"", 0)[..34]), None);
}

#[test]
fn fields_of_a_status() {
    let s = bedrock::parse_motd(
        "MCPE; Line 1 ;527;1.19.1;3;10;123;World;Survival;1;19132;19133;",
    );
    assert_eq!(s.edition, "MCPE");
    assert_eq!(s.motd_line1, "Line 1");
    assert_eq!((s.protocol, s.online, s.max), (527, 3, 10));
    assert_eq!(s.version_name, "1.19.1");
    assert_eq!(s.server_guid, "123");
    assert_eq!(s.motd_line2, "World");
    assert_eq!(s.gamemode, "Survival");
    assert_eq!((s.gamemode_id, s.port_v4, s.port_v6), (Some(1), Some(19132), Some(19133)));
    assert_eq!(s.latency, 0);
    let few = bedrock::parse_motd("MCPE;x;y;z;n");
    assert_eq!((few.protocol, few.online, few.max), (-1, 0, 0));
    assert_eq!((few.gamemode_id, few.port_v4), (None, None));
    assert_eq!(few.gamemode, "");
    assert_eq!(few.raw_motd, "MCPE;x;y;z;n");
}

#[test]
fn bedrock_addresses() {
    let at = |h: &str, p: u16| (h.to_string(), p);
    assert_eq!(bedrock::parse_addr(" play.example.org "), at("play.example.org", 19132));
    assert_eq!(bedrock::parse_addr("h:5"), at("h", 5));
    assert_eq!(bedrock::parse_addr("h:x"), at("h", 19132));
    assert_eq!(bedrock::parse_addr("[::1]"), at("::1", 19132));
    assert_eq!(bedrock::parse_addr("[::1]:7"), at("::1", 7));
    assert_eq!(bedrock::parse_addr("[::1]:x"), at("::1", 19132));
    assert_eq!(bedrock::parse_addr("::1"), at("::1", 19132));
    assert_eq!(bedrock::parse_addr("[a:5"), at("[a", 5));
    assert_eq!(bedrock::parse_addr(""), at("", 19132));
}

#[test]
fn attempts() {
    let opts = BedrockOptions::default();
    assert_eq!((opts.timeout, opts.attempts), (3000, 2));
    assert_eq!(bedrock::attempt_count(&opts), 2);
    assert_eq!(bedrock::attempt_count(&BedrockOptions { attempts: 0, ..opts }), 1);
    assert!(matches!(bedrock::after_attempt(0, 2, Event::Silence, &addr()), AfterAttempt::Retry));
    assert!(matches!(
        bedrock::after_attempt(1, 2, Event::Silence, &addr()),
        AfterAttempt::Done(Err(PingError::Timeout))
    ));
    assert!(matches!(
        bedrock::after_attempt(0, 2, Event::Datagram(vec![1, 2], 4), &addr()),
        AfterAttempt::Retry
    ));
    assert!(matches!(
        bedrock::after_attempt(1, 2, Event::Datagram(vec![1, 2], 4), &addr()),
        AfterAttempt::Done(Err(PingError::Timeout))
    ));
    match bedrock::after_attempt(0, 2, Event::Failed("e".to_string()), &addr()) {
        AfterAttempt::Done(Err(e)) => assert_eq!(e.message(), "网络错误: e"),
        _ => panic!("a fault ends the ping"),
    }
    match bedrock::after_attempt(0, 2, Event::Datagram(pong(b"MCPE;m;5", 8), 44), &addr()) {
        AfterAttempt::Done(Ok(r)) => {
            assert_eq!(r.status.latency, 44);
            assert_eq!(r.status.protocol, 5);
            assert_eq!(r.address.host, "h");
        }
        _ => panic!("a pong ends the ping"),
    }
}

#[test]
fn the_common_form() {
    let status = bedrock::parse_motd("MCPE;One;527;1.19;3;10;1;Two;Survival");
    let r = bedrock::to_ping_result(&BedrockResult { status, address: addr() });
    assert_eq!(r.status.version.name.as_deref(), Some("Bedrock 1.19 · Survival"));
    assert_eq!(r.status.description.plain(), "One\nTwo");
    assert_eq!(r.latency, Some(0));
    let p = r.status.players.unwrap();
    assert_eq!((p.online, p.max), (3, 10));
    let status = bedrock::parse_motd("MCPE;One");
    let r = bedrock::to_ping_result(&BedrockResult { status, address: addr() });
    assert_eq!(r.status.version.name.as_deref(), Some("Bedrock"));
    assert_eq!(r.status.description.plain(), "One");
}

#[test]
fn the_default_status_is_empty() {
    let s = bedrock::BedrockStatus::default();
    assert!(s.edition.is_empty() && s.raw_motd.is_empty() && s.port_v4.is_none());
    assert_eq!((s.protocol, s.online, s.max, s.latency), (0, 0, 0, 0));
}
