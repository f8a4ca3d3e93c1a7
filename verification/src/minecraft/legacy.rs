//! The ping of servers before 1.7, without its sockets.
//!
//! The request is `FE 01 FA`, the text `MC|PingHost`, and a payload with a protocol byte, the host
//! and the port. The answer is the byte `FF` and a text. A text here is the number of its UTF-16
//! units and these, all big-endian. The text of an answer either starts with `§1` and a zero
//! character, and has its fields between zero characters, or is `motd§online§max`.

use vstd::prelude::*;
use crate::minecraft::codec;
use crate::minecraft::protocol::{PingError, PingErrorView};
use crate::minecraft::text;

verus! {

/// The status of an old server.
#[derive(Debug, Clone)]
pub struct LegacyStatus {
    pub protocol: i32,
    pub version: String,
    pub motd: String,
    pub online: i64,
    pub max: i64,
}

/// What a [`LegacyStatus`] holds.
#[verifier::ext_equal]
pub struct LegacyView {
    pub protocol: i32,
    pub version: Seq<char>,
    pub motd: Seq<char>,
    pub online: i64,
    pub max: i64,
}

impl LegacyStatus {
    /// What the status holds.
    pub open spec fn model(self) -> LegacyView {
        LegacyView {
            protocol: self.protocol,
            version: self.version@,
            motd: self.motd@,
            online: self.online,
            max: self.max,
        }
    }
}

// ---- UTF-16 ----

/// The units of a character.
pub open spec fn units_of(c: char) -> Seq<u16> {
    let n = c as u32;
    if n < 0x1_0000 {
        seq![n as u16]
    } else {
        seq![
            (0xD800 + (n - 0x1_0000) / 0x400) as u16,
            (0xDC00 + (n - 0x1_0000) % 0x400) as u16,
        ]
    }
}

/// The units of a text.
pub open spec fn utf16(s: Seq<char>) -> Seq<u16>
    decreases s.len(),
{
    if s.len() == 0 {
        Seq::empty()
    } else {
        utf16(s.drop_last()) + units_of(s.last())
    }
}

/// The first half of a pair of units.
pub open spec fn is_high(u: u16) -> bool {
    0xD800 <= u <= 0xDBFF
}

/// The second half of a pair of units.
pub open spec fn is_low(u: u16) -> bool {
    0xDC00 <= u <= 0xDFFF
}

/// The text of some units; a half without its other half becomes a replacement character.
pub open spec fn from_utf16(u: Seq<u16>) -> Seq<char>
    decreases u.len(),
{
    if u.len() == 0 {
        Seq::empty()
    } else if is_high(u[0]) && u.len() > 1 && is_low(u[1]) {
        seq![((0x1_0000 + (u[0] - 0xD800) * 0x400 + (u[1] - 0xDC00)) as u32) as char] + from_utf16(
            u.skip(2),
        )
    } else if is_high(u[0]) || is_low(u[0]) {
        seq!['\u{FFFD}'] + from_utf16(u.skip(1))
    } else {
        seq![(u[0] as u32) as char] + from_utf16(u.skip(1))
    }
}

/// Big-endian units.
pub open spec fn unit_bytes(u: Seq<u16>) -> Seq<u8>
    decreases u.len(),
{
    if u.len() == 0 {
        Seq::empty()
    } else {
        unit_bytes(u.drop_last()) + codec::be_bytes(u.last() as nat, 2)
    }
}

/// A text on the wire: the number of its units and these.
pub open spec fn text_bytes(s: Seq<char>) -> Seq<u8> {
    codec::be_bytes(utf16(s).len() % 0x1_0000, 2) + unit_bytes(utf16(s))
}

/// The units of a text.
pub fn encode_utf16(s: &str) -> (r: Vec<u16>)
    ensures
        r@ == utf16(s@),
{
    let v = text::chars_of(s);
    let mut out: Vec<u16> = Vec::new();
    assert(v@.take(0) =~= Seq::empty());
    for i in 0..v.len()
        invariant
            v@ == s@,
            out@ =~= utf16(v@.take(i as int)),
    {
        assert(v@.take(i + 1).drop_last() =~= v@.take(i as int));
        proof {
            vstd::utf8::char_is_scalar(v@[i as int]);
        }
        let n: u32 = v[i] as u32;
        if n < 0x1_0000 {
            out.push(n as u16);
        } else {
            out.push((0xD800 + (n - 0x1_0000) / 0x400) as u16);
            out.push((0xDC00 + (n - 0x1_0000) % 0x400) as u16);
        }
        assert(out@ =~= utf16(v@.take(i + 1)));
    }
    assert(v@.take(v@.len() as int) =~= v@);
    out
}

/// The text of some units.
pub fn decode_utf16_lossy(u: &Vec<u16>) -> (r: String)
    ensures
        r@ == from_utf16(u@),
{
    let mut out = String::new();
    let mut i: usize = 0;
    assert(u@.skip(0) =~= u@);
    while i < u.len()
        invariant
            i <= u@.len(),
            out@ + from_utf16(u@.skip(i as int)) =~= from_utf16(u@),
        decreases u@.len() - i,
    {
        let ghost rest = u@.skip(i as int);
        let a: u16 = u[i];
        assert(rest[0] == a);
        assert(rest.skip(1) =~= u@.skip(i + 1));
        let high = 0xD800 <= a && a <= 0xDBFF;
        let low = 0xDC00 <= a && a <= 0xDFFF;
        if high && u.len() - i > 1 && 0xDC00 <= u[i + 1] && u[i + 1] <= 0xDFFF {
            let b: u16 = u[i + 1];
            assert(rest[1] == b);
            assert(rest.skip(2) =~= u@.skip(i + 2));
            let n: u32 = 0x1_0000 + (a as u32 - 0xD800) * 0x400 + (b as u32 - 0xDC00);
            match char::from_u32(n) {
                Some(c) => {
                    out.push(c);
                },
                None => {},
            }
            i += 2;
        } else if high || low {
            out.push('\u{FFFD}');
            i += 1;
        } else {
            match char::from_u32(a as u32) {
                Some(c) => {
                    out.push(c);
                },
                None => {},
            }
            i += 1;
        }
    }
    assert(u@.skip(i as int).len() == 0);
    out
}

proof fn lemma_from_utf16_units(c: char, rest: Seq<u16>)
    ensures
        from_utf16(units_of(c) + rest) == seq![c] + from_utf16(rest),
{
    let n = c as u32;
    let u = units_of(c) + rest;
    vstd::utf8::char_is_scalar(c);
    if n < 0x1_0000 {
        assert(u[0] == n as u16);
        assert(u.skip(1) =~= rest);
        vstd::utf8::char_u32_cast(c, u[0] as u32);
    } else {
        assert(u[0] == (0xD800 + (n - 0x1_0000) / 0x400) as u16);
        assert(u[1] == (0xDC00 + (n - 0x1_0000) % 0x400) as u16);
        assert(u.skip(2) =~= rest);
        let m = (0x1_0000 + (u[0] - 0xD800) * 0x400 + (u[1] - 0xDC00)) as u32;
        assert(m == n);
        vstd::utf8::char_u32_cast(c, m);
    }
}

proof fn lemma_utf16_concat(s: Seq<char>, rest: Seq<u16>)
    ensures
        from_utf16(utf16(s) + rest) == s + from_utf16(rest),
    decreases s.len(),
{
    if s.len() == 0 {
        assert(utf16(s) + rest =~= rest);
        assert(s + from_utf16(rest) =~= from_utf16(rest));
    } else {
        let before = s.drop_last();
        let c = s.last();
        lemma_utf16_concat(before, units_of(c) + rest);
        lemma_from_utf16_units(c, rest);
        assert(utf16(s) + rest =~= utf16(before) + (units_of(c) + rest));
        assert(before + (seq![c] + from_utf16(rest)) =~= s + from_utf16(rest));
    }
}

/// The units of a text lead back to it.
pub proof fn utf16_round_trip(s: Seq<char>)
    ensures
        from_utf16(utf16(s)) == s,
{
    lemma_utf16_concat(s, Seq::empty());
    assert(utf16(s) + Seq::<u16>::empty() =~= utf16(s));
    assert(s + from_utf16(Seq::empty()) =~= s);
}

// ---- the request ----

/// Appends a text.
pub fn write_legacy_string(buf: &mut Vec<u8>, s: &str)
    ensures
        final(buf)@ == old(buf)@ + text_bytes(s@),
{
    let units = encode_utf16(s);
    codec::write_u16(buf, (units.len() % 0x1_0000) as u16);
    let ghost start = buf@;
    assert(units@.take(0) =~= Seq::empty());
    for i in 0..units.len()
        invariant
            buf@ =~= start + unit_bytes(units@.take(i as int)),
    {
        assert(units@.take(i + 1).drop_last() =~= units@.take(i as int));
        codec::write_u16(buf, units[i]);
    }
    assert(units@.take(units@.len() as int) =~= units@);
    assert(buf@ =~= old(buf)@ + text_bytes(s@));
}

/// The payload of the request: a protocol byte, the host and the port.
pub open spec fn payload_bytes(host: Seq<char>, port: nat) -> Seq<u8> {
    seq![0x7Fu8] + text_bytes(host) + codec::be_bytes(port, 4)
}

/// The request.
pub open spec fn request_bytes(host: Seq<char>, port: nat) -> Seq<u8> {
    seq![0xFEu8, 0x01u8, 0xFAu8] + text_bytes("MC|PingHost"@) + codec::be_bytes(
        payload_bytes(host, port).len() % 0x1_0000,
        2,
    ) + payload_bytes(host, port)
}

/// The request.
pub fn build_request(host: &str, port: u16) -> (r: Vec<u8>)
    ensures
        r@ == request_bytes(host@, port as nat),
{
    let mut p: Vec<u8> = Vec::new();
    p.push(0xFE);
    p.push(0x01);
    p.push(0xFA);
    write_legacy_string(&mut p, "MC|PingHost");
    let mut payload: Vec<u8> = Vec::new();
    payload.push(0x7F);
    write_legacy_string(&mut payload, host);
    codec::write_be(&mut payload, port as u64, 4);
    assert(payload@ =~= payload_bytes(host@, port as nat));
    codec::write_u16(&mut p, (payload.len() % 0x1_0000) as u16);
    p.append(&mut payload);
    assert(p@ =~= request_bytes(host@, port as nat));
    p
}

// ---- the answer ----

/// A byte in hexadecimal, as `0x` and the digits that it needs.
pub open spec fn hex_byte(b: u8) -> Seq<char> {
    if b < 16 {
        "0x"@.push(hex_digit(b as int))
    } else {
        "0x"@.push(hex_digit(b as int / 16)).push(hex_digit(b as int % 16))
    }
}

/// A hexadecimal digit.
pub open spec fn hex_digit(d: int) -> char {
    if d < 10 {
        ((48 + d) as u32) as char
    } else {
        ((87 + d) as u32) as char
    }
}

/// A hexadecimal digit.
fn hex_digit_of(d: u8) -> (r: char)
    requires
        d < 16,
    ensures
        r == hex_digit(d as int),
{
    if d < 10 {
        (48 + d) as char
    } else {
        (87 + d) as char
    }
}

/// The fault of an answer that starts with a wrong byte.
pub open spec fn wrong_start(first: u8) -> PingErrorView {
    PingErrorView::Protocol("旧版响应包 ID 应为 0xFF,得到 "@ + hex_byte(first))
}

/// Checks the first byte of an answer.
pub fn check_first(first: u8) -> (r: Result<(), PingError>)
    ensures
        match r {
            Ok(_) => first == 0xFF,
            Err(e) => first != 0xFF && e@ == wrong_start(first),
        },
{
    if first == 0xFF {
        return Ok(());
    }
    let mut s = "旧版响应包 ID 应为 0xFF,得到 ".to_owned();
    s.append("0x");
    if first >= 16 {
        s.push(hex_digit_of(first / 16));
    }
    s.push(hex_digit_of(first % 16));
    assert(s@ =~= "旧版响应包 ID 应为 0xFF,得到 "@ + hex_byte(first));
    Err(PingError::Protocol(s))
}

/// How many bytes the text of an answer takes.
pub fn body_len(char_count: u16) -> (r: usize)
    ensures
        r == 2 * char_count,
{
    2 * (char_count as usize)
}

/// The units that bytes hold; a single byte at the end is left out.
pub open spec fn units_in(b: Seq<u8>) -> Seq<u16> {
    Seq::new((b.len() / 2) as nat, |i: int| (b[2 * i] * 256 + b[2 * i + 1]) as u16)
}

/// An integer of an answer, or -1.
pub open spec fn number_or(t: Seq<char>) -> i64 {
    match text::as_i64(text::trimmed(t)) {
        Some(n) => n,
        None => (-1) as i64,
    }
}

/// The start of an answer of a newer server.
pub open spec fn marker() -> Seq<char> {
    seq!['§', '1', '\0']
}

/// The text starts with the marker.
pub open spec fn is_marked(t: Seq<char>) -> bool {
    t.len() >= 3 && t.take(3) == marker()
}

/// The status that the text of an answer describes.
pub open spec fn legacy_of(t: Seq<char>) -> Result<LegacyView, PingErrorView> {
    let fields = text::pieces(t.skip(3), '\0');
    let parts = text::pieces(t, '§');
    let n = parts.len() as int;
    if is_marked(t) && fields.len() >= 5 {
        Ok(
            LegacyView {
                protocol: match text::as_i32(text::trimmed(fields[0])) {
                    Some(p) => p,
                    None => (-1) as i32,
                },
                version: fields[1],
                motd: fields[2],
                online: number_or(fields[3]),
                max: number_or(fields[4]),
            },
        )
    } else if n >= 3 {
        Ok(
            LegacyView {
                protocol: (-1) as i32,
                version: Seq::empty(),
                motd: text::joined(parts.take(n - 2), seq!['§']),
                online: number_or(parts[n - 2]),
                max: number_or(parts[n - 1]),
            },
        )
    } else {
        Err(PingErrorView::Protocol("旧版响应无法解析"@))
    }
}

/// The outcome of reading an answer.
pub open spec fn legacy_result(r: Result<LegacyStatus, PingError>) -> Result<
    LegacyView,
    PingErrorView,
> {
    match r {
        Ok(s) => Ok(s.model()),
        Err(e) => Err(e@),
    }
}

/// An integer of an answer, or -1.
fn number_or_minus_one(s: &str) -> (r: i64)
    ensures
        r == number_or(s@),
{
    let t = text::trim(s);
    match text::parse_i64(t.as_str()) {
        Some(n) => n,
        None => -1,
    }
}

/// Reads the text of an answer.
pub fn parse_legacy(t: &str) -> (r: Result<LegacyStatus, PingError>)
    ensures
        legacy_result(r) == legacy_of(t@),
{
    let v = text::chars_of(t);
    if v.len() >= 3 && v[0] == '§' && v[1] == '1' && v[2] == '\0' {
        assert(t@.take(3) =~= marker());
        let rest = text::string_of(v.as_slice(), 3, v.len());
        assert(rest@ =~= t@.skip(3));
        let fields = text::split(rest.as_str(), '\0');
        assert(text::views(fields@).len() == fields@.len());
        if fields.len() >= 5 {
            let p = text::trim(fields[0].as_str());
            let protocol: i32 = match text::parse_i32(p.as_str()) {
                Some(n) => n,
                None => -1,
            };
            return Ok(
                LegacyStatus {
                    protocol,
                    version: fields[1].clone(),
                    motd: fields[2].clone(),
                    online: number_or_minus_one(fields[3].as_str()),
                    max: number_or_minus_one(fields[4].as_str()),
                },
            );
        }
    } else {
        assert(!is_marked(t@)) by {
            if is_marked(t@) {
                assert(t@.take(3)[0] == t@[0] && t@.take(3)[1] == t@[1] && t@.take(3)[2] == t@[2]);
            }
        }
    }
    let mut parts = text::split(t, '§');
    let ghost all = text::views(parts@);
    assert(all.len() == parts@.len());
    let n: usize = parts.len();
    if n >= 3 {
        let online: i64 = number_or_minus_one(parts[n - 2].as_str());
        let max: i64 = number_or_minus_one(parts[n - 1].as_str());
        parts.truncate(n - 2);
        assert(text::views(parts@) =~= all.take(n - 2));
        proof {
            reveal_strlit("§");
            assert("§"@ =~= seq!['§']);
        }
        return Ok(
            LegacyStatus {
                protocol: -1,
                version: String::new(),
                motd: text::join(&parts, "§"),
                online,
                max,
            },
        );
    }
    Err(PingError::Protocol("旧版响应无法解析".to_owned()))
}

/// Reads the bytes of an answer's text.
pub fn parse_body(bytes: &[u8]) -> (r: Result<LegacyStatus, PingError>)
    ensures
        legacy_result(r) == legacy_of(from_utf16(units_in(bytes@))),
{
    let mut units: Vec<u16> = Vec::new();
    let n: usize = bytes.len() / 2;
    for i in 0..n
        invariant
            n == bytes.len() / 2,
            units@ =~= units_in(bytes@).take(i as int),
    {
        units.push(bytes[2 * i] as u16 * 256 + bytes[2 * i + 1] as u16);
    }
    assert(units@ =~= units_in(bytes@));
    let t = decode_utf16_lossy(&units);
    parse_legacy(t.as_str())
}

// ---- laws ----

/// The answer of a newer server, as a text.
pub open spec fn answer(s: LegacyView) -> Seq<char> {
    marker() + text::joined(
        seq![
            text::signed_decimal(s.protocol as int),
            s.version,
            s.motd,
            text::signed_decimal(s.online as int),
            text::signed_decimal(s.max as int),
        ],
        seq!['\0'],
    )
}

proof fn lemma_no_zero(n: int)
    ensures
        !text::signed_decimal(n).contains('\0'),
{
    text::decimal_is_digits(
        if n < 0 {
            (-n) as nat
        } else {
            n as nat
        },
    );
    let d = text::signed_decimal(n);
    if d.contains('\0') {
        let k = choose|k: int| 0 <= k < d.len() && d[k] == '\0';
        if n < 0 {
            let m = text::decimal((-n) as nat);
            if k > 0 {
                assert(d[k] == m[k - 1]);
                assert(text::is_digit(m[k - 1]));
            }
        } else {
            assert(text::is_digit(d[k]));
        }
    }
}

/// What an old server says of itself is read as it was said, where its texts hold no zero
/// characters.
pub proof fn answer_round_trip(s: LegacyView)
    requires
        !s.version.contains('\0'),
        !s.motd.contains('\0'),
    ensures
        legacy_of(from_utf16(utf16(answer(s)))) == Ok::<LegacyView, PingErrorView>(s),
{
    let t = answer(s);
    utf16_round_trip(t);
    let parts = seq![
        text::signed_decimal(s.protocol as int),
        s.version,
        s.motd,
        text::signed_decimal(s.online as int),
        text::signed_decimal(s.max as int),
    ];
    lemma_no_zero(s.protocol as int);
    lemma_no_zero(s.online as int);
    lemma_no_zero(s.max as int);
    assert forall|i: int| 0 <= i < parts.len() implies !(#[trigger] parts[i]).contains('\0') by {}
    text::splitting_undoes_joining(parts, '\0');
    assert(t.skip(3) =~= text::joined(parts, seq!['\0']));
    assert(t.take(3) =~= marker());
    text::decimal_round_trip(s.protocol as int);
    text::decimal_round_trip(s.online as int);
    text::decimal_round_trip(s.max as int);
}

/// What a server of the oldest kind sends is what is read: the description, which may itself hold
/// the separator, and the two numbers behind it.
pub proof fn oldest_answer_round_trip(motd: Seq<char>, online: i64, max: i64)
    requires
        ({
            let t = motd + seq!['§'] + text::signed_decimal(online as int) + seq!['§']
                + text::signed_decimal(max as int);
            !is_marked(t)
        }),
    ensures
        ({
            let t = motd + seq!['§'] + text::signed_decimal(online as int) + seq!['§']
                + text::signed_decimal(max as int);
            legacy_of(t) == Ok::<LegacyView, PingErrorView>(
                LegacyView { protocol: (-1) as i32, version: Seq::empty(), motd, online, max },
            )
        }),
{
    let sep = seq!['§'];
    let a = text::signed_decimal(online as int);
    let b = text::signed_decimal(max as int);
    let t = motd + sep + a + sep + b;
    let p = text::pieces(motd, '§');
    let all = p.push(a).push(b);
    text::joining_undoes_splitting(motd, '§');
    assert(p.len() >= 1) by {
        if p.len() == 0 {
            text::splitting_undoes_joining(seq![motd.take(0)], '§');
        }
    }
    assert(all.drop_last() =~= p.push(a));
    assert(p.push(a).drop_last() =~= p);
    assert(text::joined(p.push(a), sep) == text::joined(p, sep) + sep + a);
    assert(text::joined(all, sep) =~= t);
    lemma_no_sign(online as int);
    lemma_no_sign(max as int);
    assert forall|i: int| 0 <= i < all.len() implies !(#[trigger] all[i]).contains('§') by {
        if i < p.len() {
            text::pieces_hold_no_separator(motd, '§', i);
        }
    }
    text::splitting_undoes_joining(all, '§');
    assert(text::pieces(t, '§') == all);
    assert(all.take(all.len() - 2) =~= p);
    text::decimal_round_trip(online as int);
    text::decimal_round_trip(max as int);
}

proof fn lemma_no_sign(n: int)
    ensures
        !text::signed_decimal(n).contains('§'),
{
    text::decimal_is_digits(
        if n < 0 {
            (-n) as nat
        } else {
            n as nat
        },
    );
    let s = text::signed_decimal(n);
    if s.contains('§') {
        let k = choose|k: int| 0 <= k < s.len() && s[k] == '§';
        if n < 0 {
            assert(s[k] == '-' || text::is_digit(text::decimal((-n) as nat)[k - 1]));
        } else {
            assert(text::is_digit(text::decimal(n as nat)[k]));
        }
    }
}

proof fn lemma_unit_bytes(u: Seq<u16>)
    ensures
        unit_bytes(u).len() == 2 * u.len(),
        units_in(unit_bytes(u)) == u,
    decreases u.len(),
{
    if u.len() > 0 {
        let before = u.drop_last();
        lemma_unit_bytes(before);
        codec::bytes_have_their_order(u.last() as nat);
        let b = unit_bytes(u);
        let c = unit_bytes(before);
        assert forall|i: int| 0 <= i < u.len() implies units_in(b)[i] == #[trigger] u[i] by {
            if i < before.len() {
                assert(b[2 * i] == c[2 * i] && b[2 * i + 1] == c[2 * i + 1]);
                assert(units_in(c)[i] == before[i]);
            }
        }
        assert(units_in(b) =~= u);
    } else {
        assert(units_in(unit_bytes(u)) =~= u);
    }
}

/// A server that reads the request finds the host that is asked for, and the port behind it.
pub proof fn request_round_trip(host: Seq<char>, port: u16)
    requires
        utf16(host).len() < 0x7000,
    ensures
        ({
            let r = payload_bytes(host, port as nat);
            let n = 256 * r[1] + r[2];
            &&& r[0] == 0x7F
            &&& r.len() == 7 + 2 * n
            &&& from_utf16(units_in(r.subrange(3, 3 + 2 * n))) == host
            &&& r[3 + 2 * n] == 0 && r[4 + 2 * n] == 0
            &&& 256 * r[5 + 2 * n] + r[6 + 2 * n] == port
            &&& request_bytes(host, port as nat).take(3) == seq![0xFEu8, 0x01u8, 0xFAu8]
            &&& request_bytes(host, port as nat).skip(
                request_bytes(host, port as nat).len() - r.len(),
            ) == r
        }),
{
    let u = utf16(host);
    lemma_unit_bytes(u);
    codec::bytes_have_their_order(u.len());
    reveal_with_fuel(codec::be_bytes, 5);
    let r = payload_bytes(host, port as nat);
    let n = u.len() as int;
    assert(text_bytes(host) =~= seq![(u.len() / 256 % 256) as u8, (u.len() % 256) as u8]
        + unit_bytes(u));
    assert(r.subrange(3, 3 + 2 * n) =~= unit_bytes(u));
    utf16_round_trip(host);
    let all = request_bytes(host, port as nat);
    assert(all.take(3) =~= seq![0xFEu8, 0x01u8, 0xFAu8]);
    assert(all.skip(all.len() - r.len()) =~= r);
}

} // verus!
