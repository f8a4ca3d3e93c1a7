//! The ping of a Bedrock server, without its sockets.
//!
//! A single datagram goes each way. The ping is the byte 1, a time, a fixed marker and a client
//! number; the pong is the byte 28, the time, a server number, the marker, and a text behind its
//! length in bytes. The text has fields between semicolons, as many as the server likes.

use vstd::prelude::*;
use crate::minecraft::codec;
use crate::minecraft::component;
use crate::minecraft::component::Component;
use crate::minecraft::outside;
use crate::minecraft::protocol;
use crate::minecraft::protocol::{PingError, PingErrorView, PingResult, ResolvedAddress};
use crate::minecraft::protocol::ResultView;
use crate::minecraft::status;
use crate::minecraft::status::{Player, Players, StatusResponse, StatusView, Version};
use crate::minecraft::text;

verus! {

/// The port of a server that names none.
pub const DEFAULT_PORT: u16 = 19132;

/// The number that this client gives itself.
pub const CLIENT_GUID: i64 = 0x0123_4567_89AB_CDEF;

/// How to ping.
#[derive(Debug, Clone, Copy)]
pub struct BedrockOptions {
    /// How long to wait for an answer, in milliseconds.
    pub timeout: u64,
    /// How many times to try.
    pub attempts: u8,
}

impl Default for BedrockOptions {
    fn default() -> (r: Self)
        ensures
            r == (BedrockOptions { timeout: 3000, attempts: 2 }),
    {
        BedrockOptions { timeout: 3000, attempts: 2 }
    }
}

/// The status of a Bedrock server, field by field.
#[derive(Debug, Clone)]
pub struct BedrockStatus {
    pub edition: String,
    pub motd_line1: String,
    /// The protocol number; -1 where there is none.
    pub protocol: i32,
    pub version_name: String,
    pub online: i64,
    pub max: i64,
    pub server_guid: String,
    /// The second line of the description, or the name of the world.
    pub motd_line2: String,
    pub gamemode: String,
    pub gamemode_id: Option<i32>,
    pub port_v4: Option<u16>,
    pub port_v6: Option<u16>,
    /// The latency in milliseconds.
    pub latency: u128,
    /// The text as the server sent it.
    pub raw_motd: String,
}

/// The outcome of a ping.
#[derive(Debug, Clone)]
pub struct BedrockResult {
    pub status: BedrockStatus,
    pub address: ResolvedAddress,
}

/// What a [`BedrockStatus`] holds.
#[verifier::ext_equal]
pub struct BedrockView {
    pub edition: Seq<char>,
    pub motd_line1: Seq<char>,
    pub protocol: i32,
    pub version_name: Seq<char>,
    pub online: i64,
    pub max: i64,
    pub server_guid: Seq<char>,
    pub motd_line2: Seq<char>,
    pub gamemode: Seq<char>,
    pub gamemode_id: Option<i32>,
    pub port_v4: Option<u16>,
    pub port_v6: Option<u16>,
    pub latency: u128,
    pub raw_motd: Seq<char>,
}

impl BedrockStatus {
    /// What the status holds.
    pub open spec fn model(self) -> BedrockView {
        BedrockView {
            edition: self.edition@,
            motd_line1: self.motd_line1@,
            protocol: self.protocol,
            version_name: self.version_name@,
            online: self.online,
            max: self.max,
            server_guid: self.server_guid@,
            motd_line2: self.motd_line2@,
            gamemode: self.gamemode@,
            gamemode_id: self.gamemode_id,
            port_v4: self.port_v4,
            port_v6: self.port_v6,
            latency: self.latency,
            raw_motd: self.raw_motd@,
        }
    }
}

impl Default for BedrockStatus {
    fn default() -> (r: Self)
        ensures
            r.model() == (BedrockView {
                edition: Seq::empty(),
                motd_line1: Seq::empty(),
                protocol: 0,
                version_name: Seq::empty(),
                online: 0,
                max: 0,
                server_guid: Seq::empty(),
                motd_line2: Seq::empty(),
                gamemode: Seq::empty(),
                gamemode_id: None,
                port_v4: None,
                port_v6: None,
                latency: 0,
                raw_motd: Seq::empty(),
            }),
    {
        BedrockStatus {
            edition: String::new(),
            motd_line1: String::new(),
            protocol: 0,
            version_name: String::new(),
            online: 0,
            max: 0,
            server_guid: String::new(),
            motd_line2: String::new(),
            gamemode: String::new(),
            gamemode_id: None,
            port_v4: None,
            port_v6: None,
            latency: 0,
            raw_motd: String::new(),
        }
    }
}

// ---- datagrams ----

/// The marker of a datagram outside a connection.
pub open spec fn magic() -> Seq<u8> {
    seq![
        0x00u8, 0xffu8, 0xffu8, 0x00u8, 0xfeu8, 0xfeu8, 0xfeu8, 0xfeu8, 0xfdu8, 0xfdu8, 0xfdu8,
        0xfdu8, 0x12u8, 0x34u8, 0x56u8, 0x78u8,
    ]
}

/// The marker of a datagram outside a connection.
fn magic_bytes() -> (r: Vec<u8>)
    ensures
        r@ == magic(),
{
    let mut v: Vec<u8> = Vec::new();
    v.push(0x00);
    v.push(0xff);
    v.push(0xff);
    v.push(0x00);
    v.push(0xfe);
    v.push(0xfe);
    v.push(0xfe);
    v.push(0xfe);
    v.push(0xfd);
    v.push(0xfd);
    v.push(0xfd);
    v.push(0xfd);
    v.push(0x12);
    v.push(0x34);
    v.push(0x56);
    v.push(0x78);
    assert(v@ =~= magic());
    v
}

/// The ping.
pub open spec fn ping_bytes(ping_time: int) -> Seq<u8> {
    seq![0x01u8] + codec::be_bytes(codec::unsigned64(ping_time), 8) + magic() + codec::be_bytes(
        codec::unsigned64(CLIENT_GUID as int),
        8,
    )
}

/// The ping, 33 bytes long.
pub fn build_ping(ping_time: i64) -> (r: Vec<u8>)
    ensures
        r@ == ping_bytes(ping_time as int),
        r@.len() == 33,
{
    let mut b: Vec<u8> = Vec::new();
    b.push(0x01);
    codec::write_i64(&mut b, ping_time);
    let mut m = magic_bytes();
    b.append(&mut m);
    codec::write_i64(&mut b, CLIENT_GUID);
    proof {
        codec::i64_round_trip(ping_time, Seq::empty());
        codec::i64_round_trip(CLIENT_GUID, Seq::empty());
        assert(b@ =~= ping_bytes(ping_time as int));
    }
    b
}

/// The datagram starts as a pong does.
pub open spec fn is_pong(d: Seq<u8>) -> bool {
    d.len() >= 35 && d[0] == 0x1C && d.subrange(17, 33) == magic()
}

/// Where the text of a pong ends: after as many bytes as announced, or with the datagram.
pub open spec fn pong_end(d: Seq<u8>) -> int {
    let end = 35 + 256 * d[33] + d[34];
    if end < d.len() {
        end
    } else {
        d.len() as int
    }
}

/// The text of a pong.
pub open spec fn pong_text(d: Seq<u8>) -> Option<Seq<char>> {
    if is_pong(d) {
        Some(outside::lossy(d.subrange(35, pong_end(d))))
    } else {
        None
    }
}

/// The pong of a server.
pub open spec fn pong_bytes(time: Seq<u8>, guid: Seq<u8>, motd: Seq<char>) -> Seq<u8> {
    let t = vstd::utf8::encode_utf8(motd);
    seq![0x1Cu8] + time + guid + magic() + codec::be_bytes(t.len(), 2) + t
}

/// Whether the bytes at `at` are the marker.
fn has_magic(d: &[u8], at: usize) -> (r: bool)
    requires
        at + 16 <= d.len(),
    ensures
        r == (d@.subrange(at as int, at + 16) == magic()),
{
    let m = magic_bytes();
    let ghost part = d@.subrange(at as int, at + 16);
    for i in 0..16usize
        invariant
            at + 16 <= d.len(),
            m@ == magic(),
            part == d@.subrange(at as int, at + 16),
            forall|k: int| 0 <= k < i ==> part[k] == m@[k],
    {
        if d[at + i] != m[i] {
            assert(part[i as int] != m@[i as int]);
            return false;
        }
    }
    assert(part =~= magic());
    true
}

/// Takes the text out of a pong.
pub fn parse_pong(d: &[u8]) -> (r: Option<String>)
    ensures
        text::opt_view(r) == pong_text(d@),
{
    if d.len() < 35 || d[0] != 0x1C || !has_magic(d, 17) {
        return None;
    }
    let end: usize = 35 + 256 * (d[33] as usize) + d[34] as usize;
    let stop: usize = if end < d.len() {
        end
    } else {
        d.len()
    };
    Some(outside::lossy_text(vstd::slice::slice_subrange(d, 35, stop)))
}

/// The text that a server sends is the text that is read.
pub proof fn pong_round_trip(time: Seq<u8>, guid: Seq<u8>, motd: Seq<char>)
    requires
        time.len() == 8,
        guid.len() == 8,
        vstd::utf8::encode_utf8(motd).len() <= 0xFFFF,
    ensures
        pong_text(pong_bytes(time, guid, motd)) == Some(motd),
{
    let t = vstd::utf8::encode_utf8(motd);
    let d = pong_bytes(time, guid, motd);
    reveal_with_fuel(codec::be_bytes, 3);
    assert(codec::be_bytes(t.len(), 2) =~= seq![(t.len() / 256 % 256) as u8, (t.len() % 256) as u8]);
    assert(d.subrange(17, 33) =~= magic());
    assert(pong_end(d) == 35 + t.len());
    assert(d.subrange(35, pong_end(d)) =~= t);
    vstd::utf8::encode_utf8_valid_utf8(motd);
    vstd::utf8::encode_utf8_decode_utf8(motd);
}

// ---- the text ----

/// A field without white space at its ends; empty where it is missing.
pub open spec fn field(f: Seq<Seq<char>>, i: int) -> Seq<char> {
    if i < f.len() {
        text::trimmed(f[i])
    } else {
        Seq::empty()
    }
}

/// A field as a number, or zero.
pub open spec fn count_field(f: Seq<Seq<char>>, i: int) -> i64 {
    match text::as_i64(field(f, i)) {
        Some(n) => n,
        None => 0,
    }
}

/// The status that a text describes.
pub open spec fn status_of(s: Seq<char>) -> BedrockView {
    let f = text::pieces(s, ';');
    BedrockView {
        edition: field(f, 0),
        motd_line1: field(f, 1),
        protocol: match text::as_i32(field(f, 2)) {
            Some(n) => n,
            None => (-1) as i32,
        },
        version_name: field(f, 3),
        online: count_field(f, 4),
        max: count_field(f, 5),
        server_guid: field(f, 6),
        motd_line2: field(f, 7),
        gamemode: field(f, 8),
        gamemode_id: text::as_i32(field(f, 9)),
        port_v4: text::as_u16(field(f, 10)),
        port_v6: text::as_u16(field(f, 11)),
        latency: 0,
        raw_motd: s,
    }
}

/// A field without white space at its ends.
fn field_at(f: &Vec<String>, i: usize) -> (r: String)
    ensures
        r@ == field(text::views(f@), i as int),
{
    if i < f.len() {
        text::trim(f[i].as_str())
    } else {
        String::new()
    }
}

/// A field as a number, or zero.
fn count_at(f: &Vec<String>, i: usize) -> (r: i64)
    ensures
        r == count_field(text::views(f@), i as int),
{
    let s = field_at(f, i);
    match text::parse_i64(s.as_str()) {
        Some(n) => n,
        None => 0,
    }
}

/// Reads the text of a pong. Missing fields are empty, and numbers that are none have a default.
pub fn parse_motd(s: &str) -> (r: BedrockStatus)
    ensures
        r.model() == status_of(s@),
{
    let f = text::split(s, ';');
    let p = field_at(&f, 2);
    let protocol: i32 = match text::parse_i32(p.as_str()) {
        Some(n) => n,
        None => -1,
    };
    let mode = field_at(&f, 9);
    let v4 = field_at(&f, 10);
    let v6 = field_at(&f, 11);
    BedrockStatus {
        edition: field_at(&f, 0),
        motd_line1: field_at(&f, 1),
        protocol,
        version_name: field_at(&f, 3),
        online: count_at(&f, 4),
        max: count_at(&f, 5),
        server_guid: field_at(&f, 6),
        motd_line2: field_at(&f, 7),
        gamemode: field_at(&f, 8),
        gamemode_id: text::parse_i32(mode.as_str()),
        port_v4: text::parse_u16(v4.as_str()),
        port_v6: text::parse_u16(v6.as_str()),
        latency: 0,
        raw_motd: s.to_owned(),
    }
}

// ---- addresses ----

/// A port that is given as a text, or the default one.
pub open spec fn port_or_default(s: Seq<char>) -> u16 {
    match text::as_u16(s) {
        Some(p) => p,
        None => DEFAULT_PORT,
    }
}

/// The host and the port that an address names. Without brackets, a port counts only behind the
/// only colon.
pub open spec fn address_of(s: Seq<char>) -> (Seq<char>, u16) {
    let t = text::trimmed(s);
    let rest = t.skip(1);
    let bracketed = t.len() > 0 && t[0] == '[';
    let parts = text::pieces(t, ':');
    if bracketed && text::cut(rest, "]:"@) is Some {
        let (h, p) = text::cut(rest, "]:"@)->0;
        (h, port_or_default(p))
    } else if bracketed && rest.len() > 0 && rest.last() == ']' {
        (rest.drop_last(), DEFAULT_PORT)
    } else if parts.len() == 2 {
        (parts[0], port_or_default(parts[1]))
    } else {
        (t, DEFAULT_PORT)
    }
}

/// A port that is given as a text, or the default one.
fn port_of(s: &str) -> (r: u16)
    ensures
        r == port_or_default(s@),
{
    match text::parse_u16(s) {
        Some(p) => p,
        None => DEFAULT_PORT,
    }
}

/// Reads `host`, `host:port`, `[ipv6]`, `[ipv6]:port` or a bare IPv6 address.
pub fn parse_addr(addr: &str) -> (r: (String, u16))
    ensures
        (r.0@, r.1) == address_of(addr@),
{
    let t = text::trim(addr);
    let v = text::chars_of(t.as_str());
    if v.len() > 0 && v[0] == '[' {
        let rest = text::string_of(v.as_slice(), 1, v.len());
        assert(rest@ =~= t@.skip(1));
        if let Some((h, p)) = text::split_once(rest.as_str(), "]:") {
            return (h, port_of(p.as_str()));
        }
        let n: usize = v.len();
        if n > 1 && v[n - 1] == ']' {
            let h = text::string_of(v.as_slice(), 1, n - 1);
            assert(h@ =~= t@.skip(1).drop_last());
            return (h, DEFAULT_PORT);
        }
    }
    let parts = text::split(t.as_str(), ':');
    assert(text::views(parts@).len() == parts@.len());
    if parts.len() == 2 {
        return (parts[0].clone(), port_of(parts[1].as_str()));
    }
    (t, DEFAULT_PORT)
}

// ---- trying ----

/// What came of an attempt.
pub enum Event {
    /// A datagram arrived after so many milliseconds.
    Datagram(Vec<u8>, u128),
    /// Receiving failed.
    Failed(String),
    /// Nothing arrived in time.
    Silence,
}

/// What to do after an attempt.
pub enum AfterAttempt {
    Done(Result<BedrockResult, PingError>),
    Retry,
}

/// How many attempts are made.
pub fn attempt_count(opts: &BedrockOptions) -> (r: u8)
    ensures
        r == (if opts.attempts > 1 {
            opts.attempts
        } else {
            1
        }),
{
    if opts.attempts > 1 {
        opts.attempts
    } else {
        1
    }
}

/// What to do after the attempt number `i`, counted from zero: a pong is the outcome, a fault of
/// the connection is too; anything else calls for another attempt, or is silence where there is
/// none left.
pub fn after_attempt(i: u8, attempts: u8, event: Event, address: &ResolvedAddress) -> (r: AfterAttempt)
    ensures
        match event {
            Event::Datagram(d, latency) => match pong_text(d@) {
                Some(t) => {
                    &&& r matches AfterAttempt::Done(Ok(x))
                    &&& r->Done_0->Ok_0.status.model() == (BedrockView { latency, ..status_of(t) })
                    &&& r->Done_0->Ok_0.address.host@ == address.host@
                    &&& r->Done_0->Ok_0.address.port == address.port
                    &&& r->Done_0->Ok_0.address.via_srv == address.via_srv
                },
                None => again_or_timeout(r, i, attempts),
            },
            Event::Failed(e) => {
                &&& r matches AfterAttempt::Done(Err(x))
                &&& r->Done_0->Err_0@ == PingErrorView::Io(e@)
            },
            Event::Silence => again_or_timeout(r, i, attempts),
        },
{
    match event {
        Event::Datagram(d, latency) => {
            if let Some(t) = parse_pong(d.as_slice()) {
                let mut status = parse_motd(t.as_str());
                status.latency = latency;
                let copy = ResolvedAddress {
                    host: address.host.clone(),
                    port: address.port,
                    via_srv: address.via_srv,
                };
                return AfterAttempt::Done(Ok(BedrockResult { status, address: copy }));
            }
        },
        Event::Failed(e) => {
            return AfterAttempt::Done(Err(PingError::Io(e)));
        },
        Event::Silence => {},
    }
    if (i as u16) + 1 < attempts as u16 {
        AfterAttempt::Retry
    } else {
        AfterAttempt::Done(Err(PingError::Timeout))
    }
}

/// Another attempt, or a timeout where there is none left.
pub open spec fn again_or_timeout(r: AfterAttempt, i: u8, attempts: u8) -> bool {
    if i + 1 < attempts {
        r is Retry
    } else {
        &&& r matches AfterAttempt::Done(Err(e))
        &&& r->Done_0->Err_0@ == PingErrorView::Timeout
    }
}

// ---- the common form ----

/// The description: one line, or two.
pub open spec fn motd_of(s: BedrockView) -> Seq<char> {
    if s.motd_line2.len() == 0 {
        s.motd_line1
    } else {
        s.motd_line1 + seq!['\n'] + s.motd_line2
    }
}

/// The version: its name behind `Bedrock`, and the game mode.
pub open spec fn version_of(s: BedrockView) -> Seq<char> {
    let name = text::trimmed("Bedrock "@ + s.version_name);
    if s.gamemode.len() == 0 {
        name
    } else {
        name + " · "@ + s.gamemode
    }
}

/// The outcome in the form of a Java server's.
pub open spec fn common_form(s: BedrockView, addr: ResolvedAddress) -> ResultView {
    ResultView {
        latency: Some(s.latency),
        status: StatusView {
            version: status::VersionView {
                name: Some(version_of(s)),
                protocol: s.protocol,
                supported_versions: Seq::empty(),
            },
            players: Some(
                status::PlayersView { max: s.max, online: s.online, sample: Seq::empty() },
            ),
            description: component::text_view(motd_of(s)),
            favicon: None,
            enforces_secure_chat: None,
            previews_chat: None,
            prevents_chat_reports: None,
            is_modded: None,
            modinfo: None,
            forge_data: None,
            modpack: None,
        },
        raw_json: Seq::empty(),
        host: addr.host@,
        port: addr.port,
        via_srv: addr.via_srv,
        is_legacy: false,
    }
}

/// The outcome in the form of a Java server's.
pub fn to_ping_result(r: &BedrockResult) -> (p: PingResult)
    ensures
        p.model() == common_form(r.status.model(), r.address),
        p.latency == Some(r.status.latency),
{
    let s = &r.status;
    let motd = if s.motd_line2.as_str().is_empty() {
        s.motd_line1.clone()
    } else {
        let mut m = s.motd_line1.clone();
        m.push('\n');
        m.append(s.motd_line2.as_str());
        assert(m@ =~= motd_of(s.model()));
        m
    };
    let full = text::concat("Bedrock ", s.version_name.as_str());
    let mut name = text::trim(full.as_str());
    if !s.gamemode.as_str().is_empty() {
        name.append(" · ");
        name.append(s.gamemode.as_str());
    }
    assert(name@ =~= version_of(s.model()));
    let sample: Vec<Player> = Vec::new();
    assert(status::player_views(sample@) =~= Seq::empty());
    PingResult {
        latency: Some(s.latency),
        status: StatusResponse {
            version: Version {
                name: Some(name),
                protocol: s.protocol,
                supported_versions: Vec::new(),
            },
            players: Some(Players { max: s.max, online: s.online, sample }),
            description: Component::text(motd.as_str()),
            favicon: None,
            enforces_secure_chat: None,
            previews_chat: None,
            prevents_chat_reports: None,
            is_modded: None,
            modinfo: None,
            forge_data: None,
            modpack: None,
        },
        raw_json: String::new(),
        address: ResolvedAddress {
            host: r.address.host.clone(),
            port: r.address.port,
            via_srv: r.address.via_srv,
        },
        is_legacy: false,
    }
}

/// A host and a port that are written as one address are read as they were written.
pub proof fn address_round_trip(host: Seq<char>, port: u16)
    requires
        protocol::plain_host(host),
    ensures
        address_of(host + seq![':'] + text::decimal(port as nat)) == (host, port),
{
    protocol::address_round_trip(host, port);
    let d = text::decimal(port as nat);
    let t = host + seq![':'] + d;
    text::decimal_is_digits(port as nat);
    text::decimal_round_trip(port as int);
    assert(text::is_digit(d[d.len() - 1]));
    assert(t[0] == host[0]);
    assert(t.last() == d[d.len() - 1]);
    assert(text::trimmed(t) == t);
}

/// The common form says what the server said, and how long it took to say it.
pub proof fn common_form_keeps_what_the_server_said(s: BedrockView, addr: ResolvedAddress)
    ensures
        ({
            let r = common_form(s, addr);
            &&& r.latency == Some(s.latency)
            &&& r.host == addr.host@ && r.port == addr.port && r.via_srv == addr.via_srv
            &&& r.raw_json.len() == 0 && !r.is_legacy
            &&& r.status.players matches Some(p) && p.online == s.online && p.max == s.max
                && p.sample.len() == 0
            &&& r.status.version.protocol == s.protocol
            &&& r.status.version.supported_versions.len() == 0
            &&& s.motd_line2.len() == 0 ==> component::content(r.status.description)
                == s.motd_line1
            &&& s.motd_line2.len() > 0 ==> component::content(r.status.description)
                == s.motd_line1 + seq!['\n'] + s.motd_line2
            &&& s.gamemode.len() == 0 ==> r.status.version.name == Some(
                text::trimmed("Bedrock "@ + s.version_name),
            )
            &&& s.gamemode.len() > 0 ==> r.status.version.name == Some(
                text::trimmed("Bedrock "@ + s.version_name) + " · "@ + s.gamemode,
            )
            &&& r.status.favicon is None && r.status.modpack is None && r.status.forge_data is None
        }),
{
}

/// Every pong that arrives after `t` milliseconds gives an outcome with that latency.
pub proof fn pongs_are_timed(d: Seq<u8>, t: u128, addr: ResolvedAddress)
    requires
        is_pong(d),
    ensures
        pong_text(d) is Some,
        common_form(BedrockView { latency: t, ..status_of(pong_text(d)->0) }, addr).latency == Some(
            t,
        ),
{
}

/// The fields of the text are read in their order, without the white space around them.
pub proof fn fields_are_read_in_order(f: Seq<Seq<char>>)
    requires
        f.len() >= 12,
        forall|i: int| 0 <= i < f.len() ==> !(#[trigger] f[i]).contains(';'),
    ensures
        ({
            let s = status_of(text::joined(f, seq![';']));
            &&& s.edition == text::trimmed(f[0])
            &&& s.motd_line1 == text::trimmed(f[1])
            &&& text::as_i32(text::trimmed(f[2])) matches Some(n) ==> s.protocol == n
            &&& text::as_i32(text::trimmed(f[2])) is None ==> s.protocol == -1
            &&& s.version_name == text::trimmed(f[3])
            &&& text::as_i64(text::trimmed(f[4])) matches Some(n) ==> s.online == n
            &&& text::as_i64(text::trimmed(f[5])) matches Some(n) ==> s.max == n
            &&& s.server_guid == text::trimmed(f[6])
            &&& s.motd_line2 == text::trimmed(f[7])
            &&& s.gamemode == text::trimmed(f[8])
            &&& s.gamemode_id == text::as_i32(text::trimmed(f[9]))
            &&& s.port_v4 == text::as_u16(text::trimmed(f[10]))
            &&& s.port_v6 == text::as_u16(text::trimmed(f[11]))
            &&& s.raw_motd == text::joined(f, seq![';'])
        }),
{
    text::splitting_undoes_joining(f, ';');
}

/// What a server says of itself arrives in the common form: for every text of at least twelve fields
/// in a pong, the outcome has the numbers and texts of its fields.
pub proof fn pongs_say_what_the_server_is(
    time: Seq<u8>,
    guid: Seq<u8>,
    f: Seq<Seq<char>>,
    online: i64,
    max: i64,
    t: u128,
    addr: ResolvedAddress,
)
    requires
        time.len() == 8,
        guid.len() == 8,
        f.len() >= 12,
        forall|i: int| 0 <= i < f.len() ==> !(#[trigger] f[i]).contains(';'),
        vstd::utf8::encode_utf8(text::joined(f, seq![';'])).len() <= 0xFFFF,
        text::as_i64(text::trimmed(f[4])) == Some(online),
        text::as_i64(text::trimmed(f[5])) == Some(max),
    ensures
        ({
            let d = pong_bytes(time, guid, text::joined(f, seq![';']));
            let r = common_form(BedrockView { latency: t, ..status_of(pong_text(d)->0) }, addr);
            &&& pong_text(d) is Some
            &&& r.latency == Some(t)
            &&& r.status.players matches Some(p) && p.online == online && p.max == max
            &&& text::trimmed(f[7]).len() == 0 ==> component::content(r.status.description)
                == text::trimmed(f[1])
        }),
{
    pong_round_trip(time, guid, text::joined(f, seq![';']));
    fields_are_read_in_order(f);
}

/// The ping starts with its number, carries the time and the marker, and ends with the number of the
/// client.
pub proof fn pings_have_their_parts(t: i64)
    ensures
        ({
            let b = ping_bytes(t as int);
            &&& b.len() == 33
            &&& b[0] == 0x01
            &&& codec::signed64(codec::be_value(b.subrange(1, 9))) == t
            &&& b.subrange(9, 25) == seq![
                0x00u8, 0xffu8, 0xffu8, 0x00u8, 0xfeu8, 0xfeu8, 0xfeu8, 0xfeu8, 0xfdu8, 0xfdu8,
                0xfdu8, 0xfdu8, 0x12u8, 0x34u8, 0x56u8, 0x78u8,
            ]
        }),
{
    codec::i64_round_trip(t, Seq::empty());
    codec::i64_round_trip(CLIENT_GUID, Seq::empty());
    let time = codec::be_bytes(codec::unsigned64(t as int), 8);
    let b = ping_bytes(t as int);
    assert(time + Seq::<u8>::empty() =~= time);
    assert(time.take(8) =~= time);
    assert(b.subrange(1, 9) =~= time);
    assert(b.subrange(9, 25) =~= magic());
}

/// Only a datagram with the number of a pong and the marker at its place is one; its text is as long
/// as announced, or as the datagram lasts.
pub proof fn pongs_are_checked(d: Seq<u8>)
    ensures
        d.len() < 35 ==> pong_text(d) is None,
        d.len() >= 35 && d[0] != 0x1C ==> pong_text(d) is None,
        d.len() >= 35 && d.subrange(17, 33) != magic() ==> pong_text(d) is None,
        d.len() >= 35 && d[0] == 0x1C && d.subrange(17, 33) == magic() ==> {
            let n = 256 * d[33] + d[34];
            &&& 35 + n <= d.len() ==> pong_text(d) == Some(
                outside::lossy(d.subrange(35, 35 + n)),
            )
            &&& 35 + n > d.len() ==> pong_text(d) == Some(
                outside::lossy(d.subrange(35, d.len() as int)),
            )
        },
{
}

/// Silence calls for another attempt as long as there is one, and is then told.
pub proof fn silence_is_retried(r: AfterAttempt, i: u8, attempts: u8)
    requires
        again_or_timeout(r, i, attempts),
    ensures
        i + 1 < attempts ==> r is Retry,
        i + 1 >= attempts ==> r is Done && r->Done_0 is Err && r->Done_0->Err_0@
            == PingErrorView::Timeout,
{
}

/// What a status holds is what its fields say.
pub proof fn statuses_hold_their_fields(s: BedrockStatus)
    ensures
        s.model().edition == s.edition@,
        s.model().motd_line1 == s.motd_line1@,
        s.model().protocol == s.protocol,
        s.model().version_name == s.version_name@,
        s.model().online == s.online,
        s.model().max == s.max,
        s.model().server_guid == s.server_guid@,
        s.model().motd_line2 == s.motd_line2@,
        s.model().gamemode == s.gamemode@,
        s.model().latency == s.latency,
        s.model().raw_motd == s.raw_motd@,
{
}

} // verus!
