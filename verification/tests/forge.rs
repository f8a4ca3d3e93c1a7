use mcping_api::minecraft::codec;
use mcping_api::minecraft::forge;

/// Packs bytes, fifteen bits per character, behind their number.
fn pack(bytes: &[u8]) -> String {
    let mut s = String::new();
    let n = bytes.len() as u32;
    s.push(char::from_u32(n & 0x7FFF).unwrap());
    s.push(char::from_u32((n >> 15) & 0x7FFF).unwrap());
    let (mut buffer, mut bits) = (0u32, 0u32);
    for b in bytes {
        buffer |= (*b as u32) << bits;
        bits += 8;
        if bits >= 15 {
            s.push(char::from_u32(buffer & 0x7FFF).unwrap());
            buffer >>= 15;
            bits -= 15;
        }
    }
    if bits > 0 {
        s.push(char::from_u32(buffer & 0x7FFF).unwrap());
    }
    s
}

struct Entry {
    name: &'static str,
    version: Option<&'static str>,
    channels: Vec<&'static str>,
}

fn encode(truncated: bool, entries: &[Entry], extra: &[&str], varint: bool) -> Vec<u8> {
    let channel = |b: &mut Vec<u8>, c: &str| {
        codec::write_string(b, c);
        if varint {
            codec::write_varint(b, 7);
        } else {
            codec::write_string(b, "1.0");
        }
        b.push(1);
    };
    let mut b = vec![truncated as u8];
    codec::write_u16(&mut b, entries.len() as u16);
    for e in entries {
        let flag = (e.channels.len() as i32) * 2 + e.version.is_none() as i32;
        codec::write_varint(&mut b, flag);
        codec::write_string(&mut b, e.name);
        if let Some(v) = e.version {
            codec::write_string(&mut b, v);
        }
        for c in &e.channels {
            channel(&mut b, c);
        }
    }
    codec::write_varint(&mut b, extra.len() as i32);
    for c in extra {
        channel(&mut b, c);
    }
    b
}

fn sample() -> Vec<Entry> {
    vec![
        Entry { name: "minecraft", version: Some("1.20.1"), channels: vec![] },
        Entry { name: "forge", version: None, channels: vec!["a:b", "c:d"] },
        Entry { name: "模组", version: Some(""), channels: vec!["x"] },
    ]
}

fn names() -> Vec<(String, String)> {
    [("minecraft", "1.20.1"), ("forge", ""), ("模组", "")]
        .iter()
        .map(|(a, b)| (a.to_string(), b.to_string()))
        .collect()
}

#[test]
fn packed_bytes_are_unpacked() {
    for n in [0usize, 1, 2, 3, 14, 15, 16, 100, 4000] {
        let bytes: Vec<u8> = (0..n).map(|i| (i * 37 + 11) as u8).collect();
        assert_eq!(forge::unpack15(&pack(&bytes)), Some(bytes));
    }
}

#[test]
fn packed_bytes_may_run_out() {
    let packed = pack(&[1, 2, 3, 4]);
    let cut: String = packed.chars().take(3).collect();
    assert_eq!(forge::unpack15(&cut), Some(vec![1]));
    assert_eq!(forge::unpack15("a"), None);
    let huge: String = ['\u{7FFF}', '\u{7FFF}'].iter().collect();
    assert_eq!(forge::unpack15(&huge), None);
}

#[test]
fn lists_are_decoded() {
    for varint in [true, false] {
        let bytes = encode(true, &sample(), &["e1", "e2"], varint);
        let m = forge::decode_forge_d(&pack(&bytes)).unwrap();
        assert_eq!(m.mods, names());
        assert_eq!(m.channels, 5);
        assert!(m.truncated);
        let (read, full) = forge::parse_with(&bytes, varint).unwrap();
        assert!(full);
        assert_eq!(read.mods, names());
    }
}

#[test]
fn the_wrong_kind_of_version_does_not_use_up_the_bytes() {
    let bytes = encode(false, &sample(), &["e1"], true);
    let (_, full) = forge::parse_with(&bytes, false).unwrap();
    assert!(!full);
}

#[test]
fn damaged_lists_keep_what_was_read() {
    let bytes = encode(false, &sample(), &[], true);
    let cut = &bytes[..bytes.len() - 1];
    let m = forge::parse_buf(cut).unwrap();
    assert_eq!(m.mods, names());
    assert_eq!(m.channels, 3);
    let (_, full) = forge::parse_with(cut, true).unwrap();
    assert!(full);
    let first = &bytes[..22];
    let m = forge::parse_buf(first).unwrap();
    assert_eq!(m.mods, names()[..1].to_vec());
    assert_eq!(m.channels, 0);
}

#[test]
fn lists_that_are_none() {
    assert!(forge::parse_buf(&[]).is_none());
    assert!(forge::parse_buf(&[0, 0]).is_none());
    assert!(forge::parse_buf(&[0, 0x20, 0x01]).is_none());
    let m = forge::parse_buf(&[0, 0x20, 0x00]).unwrap();
    assert!(m.mods.is_empty());
    let m = forge::parse_buf(&[1, 0, 0]).unwrap();
    assert!(m.truncated && m.mods.is_empty());
}

#[test]
fn a_list_with_an_error_is_not_full() {
    let read = |bytes: &[u8], varint: bool| {
        let (m, full) = forge::parse_with(bytes, varint).unwrap();
        (m.mods.len(), m.channels, full)
    };
    assert_eq!(read(&[0, 0, 0, 1, 0], true), (0, 0, false));
    assert_eq!(read(&[0, 0, 0, 1, 0, 5], true), (0, 0, false));
    assert_eq!(read(&[0, 0, 0, 1, 0, 5, 1], true), (0, 1, true));
    assert_eq!(read(&[0, 0, 0, 2, 0, 5, 1], true), (0, 1, false));
    assert_eq!(read(&[0, 0, 0, 1, 0, 5, 1, 9], true), (0, 1, false));
    assert_eq!(read(&[0, 0, 0], true), (0, 0, true));
    assert_eq!(read(&[0, 0, 0, 0x80], true), (0, 0, true));
    assert_eq!(read(&[0, 0, 0, 0x80, 0x80, 0x80, 0x80, 0x80], true), (0, 0, false));
    assert_eq!(read(&[0, 0, 1, 1, 1, b'a'], true), (1, 0, true));
    assert_eq!(read(&[0, 0, 2, 1, 1, b'a'], true), (1, 0, false));
    let (m, _) = forge::parse_with(&[0, 0, 0, 1, 0], true).unwrap();
    assert!(!m.truncated);
}

#[test]
fn the_reading_without_an_error_counts() {
    let bytes = [0, 0, 0, 1, 1, b'a', 1, b'b', 1];
    assert_eq!(forge::parse_with(&bytes, true).unwrap().1, false);
    assert_eq!(forge::parse_with(&bytes, false).unwrap().1, true);
    assert_eq!(forge::parse_buf(&bytes).unwrap().channels, 1);
    let cut = [0, 0, 0, 2, 0, 0, 1, 1, b'x'];
    assert_eq!(forge::parse_with(&cut, true).unwrap().1, false);
}

#[test]
fn cutting_a_list_loses_later_mods_only() {
    for varint in [true, false] {
        let bytes = encode(true, &sample(), &["e1", "e2"], varint);
        let mut last = 0;
        for k in 3..=bytes.len() {
            let (m, _) = forge::parse_with(&bytes[..k], varint).unwrap();
            assert_eq!(m.mods, names()[..m.mods.len()].to_vec());
            assert!(m.truncated && m.channels <= 5 && m.mods.len() >= last);
            last = m.mods.len();
        }
        assert_eq!(last, 3);
    }
}
