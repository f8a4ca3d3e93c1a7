//! The status exchange with a Java server, without its sockets.
//!
//! A client sends a handshake and a status request, reads one frame with the status, and may send
//! a ping whose answer gives the latency. What is sent, what an answer means and what to do next is
//! decided here; [`codec`] has the bytes.

use vstd::prelude::*;
use crate::minecraft::codec;
use crate::minecraft::codec::CodecError;
use crate::minecraft::component;
use crate::minecraft::component::Component;
use crate::minecraft::json;
use crate::minecraft::legacy::LegacyStatus;
use crate::minecraft::outside;
use crate::minecraft::status;
use crate::minecraft::status::{Modpack, Players, StatusResponse, StatusView, Version};
use crate::minecraft::text;

verus! {

/// The longest frame that is read.
pub const MAX_FRAME: usize = 8388608;

/// The longest status text, in bytes.
pub const STATUS_JSON_MAX: usize = 262144;

/// The longest answer to a ping; some servers append texts to it.
pub const PONG_FRAME_MAX: usize = 1024;

/// The longest modpack version behind the answer to a ping, in bytes.
pub const PACK_VERSION_MAX: usize = 256;

/// The number that a ping carries.
pub const PING_PAYLOAD: i64 = 0x0123_4567_89AB_CDEF;

/// The port of a server that names none.
pub const DEFAULT_PORT: u16 = 25565;

/// The most bytes that the length of a frame takes.
pub const FRAME_LEN_MAX_BYTES: u32 = 3;

/// How to ping.
#[derive(Debug, Clone, Copy)]
pub struct PingOptions {
    /// The protocol number of the handshake; -1 for a mere ping.
    pub protocol_version: i32,
    /// How long to wait for each step, in milliseconds.
    pub timeout: u64,
    /// Whether to look for an SRV record of a host without a port.
    pub use_srv: bool,
    /// Whether to measure the latency.
    pub measure_latency: bool,
    /// Whether to try the ping of old servers where the usual one fails.
    pub allow_legacy: bool,
}

/// The usual way to ping.
pub open spec fn usual_ping() -> PingOptions {
    PingOptions {
        protocol_version: (-1) as i32,
        timeout: 5000,
        use_srv: true,
        measure_latency: true,
        allow_legacy: true,
    }
}

impl Default for PingOptions {
    fn default() -> (r: Self)
        ensures
            r == usual_ping(),
    {
        PingOptions {
            protocol_version: -1,
            timeout: 5000,
            use_srv: true,
            measure_latency: true,
            allow_legacy: true,
        }
    }
}

/// The address that a connection goes to.
#[derive(Debug, Clone)]
pub struct ResolvedAddress {
    pub host: String,
    pub port: u16,
    pub via_srv: bool,
}

/// The outcome of a ping.
#[derive(Debug)]
pub struct PingResult {
    /// The latency in milliseconds, where it was measured.
    pub latency: Option<u128>,
    pub status: StatusResponse,
    /// The status as the server sent it; empty for an old server.
    pub raw_json: String,
    pub address: ResolvedAddress,
    /// Whether the server answered the ping of old servers.
    pub is_legacy: bool,
}

/// What can go wrong.
#[derive(Debug)]
pub enum PingError {
    Address(String),
    Io(String),
    Timeout,
    Protocol(String),
    Json(String),
}

/// What a [`PingError`] holds.
#[verifier::ext_equal]
pub enum PingErrorView {
    Address(Seq<char>),
    Io(Seq<char>),
    Timeout,
    Protocol(Seq<char>),
    Json(Seq<char>),
}

impl PingError {
    /// What the error holds.
    pub open spec fn view(&self) -> PingErrorView {
        match self {
            PingError::Address(s) => PingErrorView::Address(s@),
            PingError::Io(s) => PingErrorView::Io(s@),
            PingError::Timeout => PingErrorView::Timeout,
            PingError::Protocol(s) => PingErrorView::Protocol(s@),
            PingError::Json(s) => PingErrorView::Json(s@),
        }
    }

    /// The text shown for the error.
    pub fn message(&self) -> (r: String)
        ensures
            r@ == self@.text(),
    {
        match self {
            PingError::Address(s) => text::concat("地址无法解析: ", s.as_str()),
            PingError::Io(s) => text::concat("网络错误: ", s.as_str()),
            PingError::Timeout => "连接超时".to_owned(),
            PingError::Protocol(s) => text::concat("协议错误: ", s.as_str()),
            PingError::Json(s) => text::concat("状态 JSON 解析失败: ", s.as_str()),
        }
    }
}

impl PingErrorView {
    /// The text shown for the error.
    pub open spec fn text(self) -> Seq<char> {
        match self {
            PingErrorView::Address(s) => "地址无法解析: "@ + s,
            PingErrorView::Io(s) => "网络错误: "@ + s,
            PingErrorView::Timeout => "连接超时"@,
            PingErrorView::Protocol(s) => "协议错误: "@ + s,
            PingErrorView::Json(s) => "状态 JSON 解析失败: "@ + s,
        }
    }
}

/// A text and a number one after the other.
fn joined_number(a: &str, n: i64) -> (r: String)
    ensures
        r@ == a@ + text::signed_decimal(n as int),
{
    let d = text::signed_decimal_of(n);
    text::concat(a, d.as_str())
}

/// A mistake in a packet counts as a fault of the connection.
pub open spec fn packet_error(e: CodecError) -> PingErrorView {
    PingErrorView::Io(e.text())
}

/// A mistake in a packet counts as a fault of the connection.
fn from_codec(e: CodecError) -> (r: PingError)
    ensures
        r@ == packet_error(e),
{
    PingError::Io(e.message())
}

// ---- addresses ----

/// What an address names: host, port, and whether the port is given.
pub open spec fn address_of(s: Seq<char>) -> Result<(Seq<char>, u16, bool), PingErrorView> {
    let t = text::trimmed(s);
    if t.len() == 0 {
        Err(PingErrorView::Address("地址为空"@))
    } else if t[0] == '[' {
        match text::cut(t.skip(1), "]"@) {
            None => Err(PingErrorView::Address("IPv6 缺 ]"@)),
            Some((ip, tail)) => if tail.len() > 0 && tail[0] == ':' {
                with_port(ip, tail.skip(1))
            } else {
                Ok((ip, DEFAULT_PORT, false))
            },
        }
    } else if text::pieces(t, ':').len() == 2 {
        with_port(text::pieces(t, ':')[0], text::pieces(t, ':')[1])
    } else {
        Ok((t, DEFAULT_PORT, false))
    }
}

/// A host with a port that is given as a text.
pub open spec fn with_port(host: Seq<char>, port: Seq<char>) -> Result<
    (Seq<char>, u16, bool),
    PingErrorView,
> {
    match text::as_u16(port) {
        Some(p) => Ok((host, p, true)),
        None => Err(PingErrorView::Address("端口非法"@)),
    }
}

/// The outcome of reading an address.
pub open spec fn address_result(r: Result<(String, u16, bool), PingError>) -> Result<
    (Seq<char>, u16, bool),
    PingErrorView,
> {
    match r {
        Ok((h, p, e)) => Ok((h@, p, e)),
        Err(e) => Err(e@),
    }
}

/// A host with a port that is given as a text.
fn host_with_port(host: String, port: &str) -> (r: Result<(String, u16, bool), PingError>)
    ensures
        address_result(r) == with_port(host@, port@),
{
    match text::parse_u16(port) {
        Some(p) => Ok((host, p, true)),
        None => Err(PingError::Address("端口非法".to_owned())),
    }
}

/// Reads `host`, `host:port`, `[ipv6]`, `[ipv6]:port` or a bare IPv6 address.
pub fn parse_address(addr: &str) -> (r: Result<(String, u16, bool), PingError>)
    ensures
        address_result(r) == address_of(addr@),
{
    let t = text::trim(addr);
    let v = text::chars_of(t.as_str());
    if v.len() == 0 {
        return Err(PingError::Address("地址为空".to_owned()));
    }
    if v[0] == '[' {
        let rest = text::string_of(v.as_slice(), 1, v.len());
        assert(rest@ =~= t@.skip(1));
        return match text::split_once(rest.as_str(), "]") {
            None => Err(PingError::Address("IPv6 缺 ]".to_owned())),
            Some((ip, tail)) => {
                let w = text::chars_of(tail.as_str());
                if w.len() > 0 && w[0] == ':' {
                    let port = text::string_of(w.as_slice(), 1, w.len());
                    assert(port@ =~= tail@.skip(1));
                    host_with_port(ip, port.as_str())
                } else {
                    Ok((ip, DEFAULT_PORT, false))
                }
            },
        };
    }
    let parts = text::split(t.as_str(), ':');
    assert(text::views(parts@).len() == parts@.len());
    if parts.len() == 2 {
        return host_with_port(parts[0].clone(), parts[1].as_str());
    }
    Ok((t, DEFAULT_PORT, false))
}

/// Where a connection goes: the host and port to connect to, the host that the handshake names, and
/// whether an SRV record led there.
#[derive(Debug, Clone)]
pub struct Target {
    pub connect_host: String,
    pub connect_port: u16,
    pub handshake_host: String,
    pub via_srv: bool,
}

/// Whether to look for an SRV record: where that is wanted, no port is given, and the host is a
/// name and not an IP address.
pub fn looks_for_srv(opts: &PingOptions, explicit_port: bool, host_is_ip: bool) -> (r: bool)
    ensures
        r == (opts.use_srv && !explicit_port && !host_is_ip),
{
    opts.use_srv && !explicit_port && !host_is_ip
}

/// Where a connection goes, given what the SRV record says, if there is one.
pub fn resolve_target(host: &str, port: u16, srv: Option<(String, u16)>) -> (r: Target)
    ensures
        match srv {
            Some((target, p)) => {
                &&& r.connect_host@ == target@
                &&& r.connect_port == p
                &&& r.handshake_host@ == target@
                &&& r.via_srv
            },
            None => {
                &&& r.connect_host@ == host@
                &&& r.connect_port == port
                &&& r.handshake_host@ == host@
                &&& !r.via_srv
            },
        },
{
    match srv {
        Some((target, p)) => Target {
            connect_host: target.clone(),
            connect_port: p,
            handshake_host: target,
            via_srv: true,
        },
        None => Target {
            connect_host: host.to_owned(),
            connect_port: port,
            handshake_host: host.to_owned(),
            via_srv: false,
        },
    }
}

// ---- frames ----

/// The length of a frame as far as it has been read.
#[derive(Debug, Clone, Copy, PartialEq, Eq, Structural)]
pub struct FrameLen {
    pub value: u32,
    pub count: u32,
}

/// What a byte of a frame's length means.
#[derive(Debug, Clone, Copy, PartialEq, Eq, Structural)]
pub enum FrameStep {
    /// Another byte follows.
    More,
    /// The length is complete.
    Length(u32),
    /// The length takes more bytes than it may.
    TooLong,
}

impl FrameLen {
    /// Less than the greatest number of bytes has been read.
    pub open spec fn wf(self) -> bool {
        self.count < FRAME_LEN_MAX_BYTES && self.value < codec::pow128(self.count as nat)
    }

    /// The length after one more byte.
    pub open spec fn after(self, b: u8) -> FrameLen {
        FrameLen {
            value: (self.value + (b % 128) * codec::pow128(self.count as nat)) as u32,
            count: (self.count + 1) as u32,
        }
    }

    /// What one more byte means.
    pub open spec fn step(self, b: u8) -> FrameStep {
        if b < 128 {
            FrameStep::Length(self.after(b).value)
        } else if self.count + 1 == FRAME_LEN_MAX_BYTES {
            FrameStep::TooLong
        } else {
            FrameStep::More
        }
    }

    /// Before the first byte.
    pub fn new() -> (r: Self)
        ensures
            r == (FrameLen { value: 0, count: 0 }),
            r.wf(),
    {
        assert(codec::pow128(0) == 1);
        FrameLen { value: 0, count: 0 }
    }

    /// Takes one more byte.
    pub fn feed(&mut self, b: u8) -> (r: FrameStep)
        requires
            old(self).wf(),
        ensures
            r == old(self).step(b),
            *final(self) == old(self).after(b),
            r is More ==> final(self).wf(),
    {
        proof {
            reveal_with_fuel(codec::pow128, 4);
        }
        let unit: u32 = if self.count == 0 {
            1
        } else if self.count == 1 {
            128
        } else {
            16384
        };
        let d: u32 = (b % 128) as u32;
        assert(0 <= d * unit <= 127 * unit) by (nonlinear_arith)
            requires
                0 <= d <= 127,
                0 <= unit,
        ;
        let value: u32 = self.value + d * unit;
        self.value = value;
        self.count = self.count + 1;
        if b < 128 {
            FrameStep::Length(value)
        } else if self.count == FRAME_LEN_MAX_BYTES {
            FrameStep::TooLong
        } else {
            FrameStep::More
        }
    }
}

/// The bytes that have been fed lead to this state.
pub open spec fn fed(s: Seq<u8>) -> FrameLen
    decreases s.len(),
{
    if s.len() == 0 {
        FrameLen { value: 0, count: 0 }
    } else {
        fed(s.drop_last()).after(s.last())
    }
}

/// Reading the bytes of a length one by one gives what the length of a packet was written as:
/// every byte but the last asks for more, and the last one completes the length.
pub proof fn frame_length_round_trip(n: nat, i: int)
    requires
        n < 0x20_0000,
        0 <= i < codec::varint_bytes(n).len(),
    ensures
        fed(codec::varint_bytes(n).take(i)).wf(),
        fed(codec::varint_bytes(n).take(i)).step(codec::varint_bytes(n)[i]) == (if i
            < codec::varint_bytes(n).len() - 1 {
            FrameStep::More
        } else {
            FrameStep::Length(n as u32)
        }),
{
    let b = codec::varint_bytes(n);
    let n1 = n / 128;
    let n2 = n1 / 128;
    assert(codec::pow128(0) == 1 && codec::pow128(1) == 128 && codec::pow128(2) == 16384) by {
        reveal_with_fuel(codec::pow128, 3);
    }
    if n < 128 {
        assert(b =~= seq![n as u8]);
    } else if n1 < 128 {
        assert(codec::varint_bytes(n1) =~= seq![n1 as u8]);
        assert(b =~= seq![(n % 128 + 128) as u8, n1 as u8]);
    } else {
        assert(codec::varint_bytes(n2) =~= seq![n2 as u8]);
        assert(codec::varint_bytes(n1) =~= seq![(n1 % 128 + 128) as u8, n2 as u8]);
        assert(b =~= seq![(n % 128 + 128) as u8, (n1 % 128 + 128) as u8, n2 as u8]);
    }
    assert(b.take(0) =~= Seq::empty());
    assert(fed(b.take(0)) == (FrameLen { value: 0, count: 0 }));
    if i >= 1 {
        assert(b.take(1).drop_last() =~= b.take(0));
        assert(b.take(1).last() == b[0]);
        assert(b[0] % 128 == n % 128);
        assert(fed(b.take(1)) == fed(b.take(0)).after(b[0]));
        assert((b[0] % 128) * codec::pow128(0) == n % 128);
        assert(fed(b.take(1)) == (FrameLen { value: (n % 128) as u32, count: 1 }));
        if i >= 2 {
            assert(b.take(2).drop_last() =~= b.take(1));
            assert(b.take(2).last() == b[1]);
            assert(b[1] % 128 == n1 % 128);
            assert(fed(b.take(2)) == fed(b.take(1)).after(b[1]));
            assert((b[1] % 128) * codec::pow128(1) == (n1 % 128) * 128);
            assert(fed(b.take(2)) == (FrameLen {
                value: (n % 128 + (n1 % 128) * 128) as u32,
                count: 2,
            }));
        }
    }
    let last = b[i];
    let state = fed(b.take(i));
    if i == b.len() - 1 {
        if i == 0 {
            assert(last % 128 == n);
            assert((last % 128) * codec::pow128(0) == n);
        } else if i == 1 {
            assert(last % 128 == n1);
            assert((last % 128) * codec::pow128(1) == n1 * 128);
            assert(n % 128 + n1 * 128 == n);
        } else {
            assert(last % 128 == n2);
            assert((last % 128) * codec::pow128(2) == n2 * 16384);
            assert(n % 128 + (n1 % 128) * 128 + n2 * 16384 == n);
        }
        assert(state.after(last).value == n);
    }
}

/// The outcome of checking a frame's length.
pub open spec fn length_result(len: u32, max: usize) -> Result<usize, PingErrorView> {
    if len == 0 || len > max {
        Err(PingErrorView::Protocol("帧长越界: "@ + text::signed_decimal(len as int)))
    } else {
        Ok(len as usize)
    }
}

/// Checks the length of a frame.
pub fn check_frame_len(len: u32, max: usize) -> (r: Result<usize, PingError>)
    ensures
        match r {
            Ok(n) => length_result(len, max) == Ok::<usize, PingErrorView>(n),
            Err(e) => length_result(len, max) == Err::<usize, PingErrorView>(e@),
        },
{
    if len == 0 || len as u64 > max as u64 {
        Err(PingError::Protocol(joined_number("帧长越界: ", len as i64)))
    } else {
        Ok(len as usize)
    }
}

/// The fault of a frame whose length takes too many bytes.
pub fn frame_len_too_long() -> (r: PingError)
    ensures
        r@ == PingErrorView::Protocol("帧长 VarInt 超过 21 位"@),
{
    PingError::Protocol("帧长 VarInt 超过 21 位".to_owned())
}

// ---- packets ----

/// What a client sends first: the handshake for the status state and the status request.
pub fn status_hello(protocol: i32, host: &str, port: u16) -> (r: Vec<u8>)
    ensures
        r@ == codec::packet_bytes(
            0,
            codec::handshake_payload(protocol as int, host@, port as nat, 1),
        ) + codec::packet_bytes(0, Seq::empty()),
{
    let mut hello = codec::handshake(protocol, host, port, 1);
    let mut request = codec::status_request();
    hello.append(&mut request);
    hello
}

/// What a frame with a status holds: the packet 0 with a text.
pub open spec fn status_text_of(frame: Seq<u8>) -> Result<Seq<char>, PingErrorView> {
    let (id, n) = codec::varint_at(frame);
    match id {
        Err(e) => Err(packet_error(e)),
        Ok(i) => if i != 0 {
            Err(
                PingErrorView::Protocol(
                    "状态响应包 ID 应为 0,得到 "@ + text::signed_decimal(i as int),
                ),
            )
        } else {
            match codec::string_at(frame.skip(n as int), STATUS_JSON_MAX as nat).0 {
                Ok(s) => Ok(s),
                Err(e) => Err(packet_error(e)),
            }
        },
    }
}

/// The outcome of reading a text.
pub open spec fn text_result(r: Result<String, PingError>) -> Result<Seq<char>, PingErrorView> {
    match r {
        Ok(s) => Ok(s@),
        Err(e) => Err(e@),
    }
}

/// Takes the status text out of a frame.
pub fn parse_status_frame(frame: &[u8]) -> (r: Result<String, PingError>)
    ensures
        text_result(r) == status_text_of(frame@),
{
    let mut reader = codec::Reader::new(frame);
    match reader.read_varint() {
        Err(e) => Err(from_codec(e)),
        Ok(id) => {
            if id != 0 {
                return Err(
                    PingError::Protocol(joined_number("状态响应包 ID 应为 0,得到 ", id as i64)),
                );
            }
            match reader.read_string(STATUS_JSON_MAX) {
                Ok(s) => Ok(s),
                Err(e) => Err(from_codec(e)),
            }
        },
    }
}

/// The text without white space at its ends, unless nothing is left.
pub open spec fn some_text(t: Option<Seq<char>>) -> Option<Seq<char>> {
    match t {
        Some(s) => if text::trimmed(s).len() > 0 {
            Some(text::trimmed(s))
        } else {
            None
        },
        None => None,
    }
}

/// What the answer to a ping holds: the packet 1 with the number that was sent, and perhaps the
/// version of a modpack.
pub open spec fn pong_of(frame: Seq<u8>) -> Result<Option<Seq<char>>, PingErrorView> {
    let (id, n) = codec::varint_at(frame);
    let rest = frame.skip(n as int);
    match id {
        Err(e) => Err(packet_error(e)),
        Ok(i) => if i != 1 {
            Err(
                PingErrorView::Protocol(
                    "pong 包 ID 应为 1,得到 "@ + text::signed_decimal(i as int),
                ),
            )
        } else {
            match codec::be_at(rest, 8).0 {
                Err(e) => Err(packet_error(e)),
                Ok(u) => if codec::signed64(u) != PING_PAYLOAD {
                    Err(PingErrorView::Protocol("pong 载荷不匹配"@))
                } else {
                    Ok(some_text(codec::string_at(rest.skip(8), PACK_VERSION_MAX as nat).0.ok()))
                },
            }
        },
    }
}

/// The outcome of reading the answer to a ping.
pub open spec fn pong_result(r: Result<Option<String>, PingError>) -> Result<
    Option<Seq<char>>,
    PingErrorView,
> {
    match r {
        Ok(s) => Ok(text::opt_view(s)),
        Err(e) => Err(e@),
    }
}

/// The text without white space at its ends, unless nothing is left.
fn trimmed_or_none(s: Option<String>) -> (r: Option<String>)
    ensures
        text::opt_view(r) == some_text(text::opt_view(s)),
{
    match s {
        Some(t) => {
            let u = text::trim(t.as_str());
            if u.as_str().is_empty() {
                None
            } else {
                Some(u)
            }
        },
        None => None,
    }
}

/// Checks the answer to a ping; gives the version of the modpack where the server appends it.
pub fn verify_pong(frame: &[u8]) -> (r: Result<Option<String>, PingError>)
    ensures
        pong_result(r) == pong_of(frame@),
{
    let mut reader = codec::Reader::new(frame);
    let id: i32 = match reader.read_varint() {
        Ok(n) => n,
        Err(e) => {
            return Err(from_codec(e));
        },
    };
    if id != 1 {
        return Err(PingError::Protocol(joined_number("pong 包 ID 应为 1,得到 ", id as i64)));
    }
    let ghost rest = reader.rest();
    match reader.read_i64() {
        Ok(echoed) => {
            proof {
                lemma_be_value_bound(rest.take(8));
            }
            if echoed != PING_PAYLOAD {
                return Err(PingError::Protocol("pong 载荷不匹配".to_owned()));
            }
        },
        Err(e) => {
            return Err(from_codec(e));
        },
    }
    assert(reader.rest() == rest.skip(8));
    let version = match reader.read_string(PACK_VERSION_MAX) {
        Ok(s) => Some(s),
        Err(_) => None,
    };
    Ok(trimmed_or_none(version))
}

proof fn lemma_be_value_bound(s: Seq<u8>)
    requires
        s.len() == 8,
    ensures
        codec::be_value(s) < 0x1_0000_0000_0000_0000,
{
    reveal_with_fuel(codec::be_value, 9);
}

/// A server that sends its status text as it should is understood.
pub proof fn status_round_trip(s: Seq<char>)
    requires
        vstd::utf8::encode_utf8(s).len() <= STATUS_JSON_MAX,
    ensures
        status_text_of(codec::varint_bytes(0) + codec::string_bytes(s)) == Ok::<
            Seq<char>,
            PingErrorView,
        >(s),
{
    let frame = codec::varint_bytes(0) + codec::string_bytes(s);
    codec::varint_round_trip(0, codec::string_bytes(s));
    codec::varint_length(0);
    let n = codec::varint_bytes(0).len() as int;
    assert(frame.skip(n) =~= codec::string_bytes(s));
    codec::string_round_trip(s, Seq::empty(), STATUS_JSON_MAX as nat);
    assert(codec::string_bytes(s) + Seq::empty() =~= codec::string_bytes(s));
}

/// A server that sends a ping back as it came is understood, and nothing more is read from it.
pub proof fn pong_round_trip()
    ensures
        pong_of(
            codec::varint_bytes(1) + codec::be_bytes(codec::unsigned64(PING_PAYLOAD as int), 8),
        ) == Ok::<Option<Seq<char>>, PingErrorView>(None),
{
    let payload = codec::be_bytes(codec::unsigned64(PING_PAYLOAD as int), 8);
    let frame = codec::varint_bytes(1) + payload;
    codec::varint_round_trip(1, payload);
    let n = codec::varint_bytes(1).len() as int;
    assert(frame.skip(n) =~= payload);
    codec::i64_round_trip(PING_PAYLOAD, Seq::empty());
    assert(payload + Seq::empty() =~= payload);
    assert(payload.skip(8) =~= Seq::empty());
    assert(codec::varint_at(Seq::empty()).0 is Err);
}

// ---- results ----

/// The outcome of reading a status.
pub open spec fn status_result(r: Result<StatusResponse, PingError>) -> Result<
    StatusView,
    PingErrorView,
> {
    match r {
        Ok(s) => Ok(s.model()),
        Err(e) => Err(e@),
    }
}

/// The status that a text describes.
pub open spec fn status_of_text(raw: Seq<char>, readings: Seq<(Seq<char>, i64)>) -> Result<
    StatusView,
    PingErrorView,
> {
    match outside::json_of(raw) {
        Ok(v) => Ok(status::status_of(v, readings)),
        Err(e) => Err(PingErrorView::Json(e)),
    }
}

/// Reads a status from its text.
pub fn parse_status(raw: &str, readings: &Vec<(String, i64)>) -> (r: Result<
    StatusResponse,
    PingError,
>)
    ensures
        status_result(r) == status_of_text(raw@, status::readings_view(readings@)),
{
    match json::parse(raw) {
        Ok(v) => Ok(StatusResponse::from_value(&v, readings)),
        Err(e) => Err(PingError::Json(e)),
    }
}

/// The texts of a status that need a reading; none where it is no JSON.
pub fn status_numbers(raw: &str) -> (r: Vec<String>)
    ensures
        text::views(r@) == (match outside::json_of(raw@) {
            Ok(v) => status::unread_of(status::status_numbers(v)),
            Err(_) => Seq::empty(),
        }),
{
    match json::parse(raw) {
        Ok(v) => status::unread_numbers(&v),
        Err(_) => {
            let r: Vec<String> = Vec::new();
            assert(text::views(r@) =~= Seq::empty());
            r
        },
    }
}

/// A status with a modpack version that came with the answer to a ping: it counts where the status
/// names no modpack itself.
pub open spec fn with_pack_version(s: StatusView, version: Option<Seq<char>>) -> StatusView {
    if s.modpack is None && some_text(version) is Some {
        StatusView { modpack: Some((Seq::empty(), some_text(version)->0)), ..s }
    } else {
        s
    }
}

/// Adds a modpack version that came with the answer to a ping.
pub fn apply_nyf_modpack(s: &mut StatusResponse, version: Option<String>)
    ensures
        final(s).model() == with_pack_version(old(s).model(), text::opt_view(version)),
{
    if s.modpack.is_none() {
        if let Some(v) = trimmed_or_none(version) {
            s.modpack = Some(Modpack { name: String::new(), version: v });
        }
    }
}

/// What a [`PingResult`] holds.
#[verifier::ext_equal]
pub struct ResultView {
    pub latency: Option<u128>,
    pub status: StatusView,
    pub raw_json: Seq<char>,
    pub host: Seq<char>,
    pub port: u16,
    pub via_srv: bool,
    pub is_legacy: bool,
}

impl PingResult {
    /// What the result holds.
    pub open spec fn model(self) -> ResultView {
        ResultView {
            latency: self.latency,
            status: self.status.model(),
            raw_json: self.raw_json@,
            host: self.address.host@,
            port: self.address.port,
            via_srv: self.address.via_srv,
            is_legacy: self.is_legacy,
        }
    }
}

/// The outcome of a ping.
pub open spec fn ping_result(r: Result<PingResult, PingError>) -> Result<
    ResultView,
    PingErrorView,
> {
    match r {
        Ok(x) => Ok(x.model()),
        Err(e) => Err(e@),
    }
}

/// What a measurement gives: the latency and the modpack version, or neither where it failed.
pub fn after_measure(r: Result<(u128, Option<String>), PingError>) -> (m: (
    Option<u128>,
    Option<String>,
))
    ensures
        match r {
            Ok((ms, version)) => m == (Some(ms), version),
            Err(_) => m == (None::<u128>, None::<String>),
        },
{
    match r {
        Ok((ms, version)) => (Some(ms), version),
        Err(_) => (None, None),
    }
}

/// The outcome of a ping, from what the server sent.
pub open spec fn answered(
    latency: Option<u128>,
    raw: Seq<char>,
    version: Option<Seq<char>>,
    addr: ResolvedAddress,
    readings: Seq<(Seq<char>, i64)>,
) -> Result<ResultView, PingErrorView> {
    match status_of_text(raw, readings) {
        Ok(s) => Ok(
            ResultView {
                latency,
                status: with_pack_version(s, version),
                raw_json: raw,
                host: addr.host@,
                port: addr.port,
                via_srv: addr.via_srv,
                is_legacy: false,
            },
        ),
        Err(e) => Err(e),
    }
}

/// The outcome of a ping, from what the server sent.
pub fn conclude(
    latency: Option<u128>,
    raw_json: String,
    version: Option<String>,
    address: ResolvedAddress,
    readings: &Vec<(String, i64)>,
) -> (r: Result<PingResult, PingError>)
    ensures
        ping_result(r) == answered(
            latency,
            raw_json@,
            text::opt_view(version),
            address,
            status::readings_view(readings@),
        ),
{
    match parse_status(raw_json.as_str(), readings) {
        Ok(s) => {
            let mut status = s;
            apply_nyf_modpack(&mut status, version);
            Ok(PingResult { latency, status, raw_json, address, is_legacy: false })
        },
        Err(e) => Err(e),
    }
}

/// The outcome of the ping of an old server.
pub open spec fn legacy_view(
    s: LegacyStatus,
    latency: u128,
    addr: ResolvedAddress,
) -> ResultView {
    ResultView {
        latency: Some(latency),
        status: StatusView {
            version: status::VersionView {
                name: if s.version@.len() > 0 {
                    Some(s.version@)
                } else {
                    None
                },
                protocol: s.protocol,
                supported_versions: Seq::empty(),
            },
            players: if s.online >= 0 || s.max >= 0 {
                Some(
                    status::PlayersView { max: s.max, online: s.online, sample: Seq::empty() },
                )
            } else {
                None
            },
            description: component::text_view(s.motd@),
            favicon: None,
            enforces_secure_chat: None,
            previews_chat: None,
            prevents_chat_reports: None,
            is_modded: None,
            modinfo: None,
            forge_data: None,
            modpack: None,
        },
        raw_json: Seq::empty(),
        host: addr.host@,
        port: addr.port,
        via_srv: addr.via_srv,
        is_legacy: true,
    }
}

/// The outcome of the ping of an old server.
pub fn from_legacy(ls: LegacyStatus, latency: u128, addr: ResolvedAddress) -> (r: PingResult)
    ensures
        r.model() == legacy_view(ls, latency, addr),
{
    let sample: Vec<status::Player> = Vec::new();
    assert(status::player_views(sample@) =~= Seq::empty());
    let players = if ls.online >= 0 || ls.max >= 0 {
        Some(Players { max: ls.max, online: ls.online, sample })
    } else {
        None
    };
    let description = Component::text(ls.motd.as_str());
    let name = if ls.version.as_str().is_empty() {
        None
    } else {
        Some(ls.version)
    };
    PingResult {
        latency: Some(latency),
        status: StatusResponse {
            version: Version { name, protocol: ls.protocol, supported_versions: Vec::new() },
            players,
            description,
            favicon: None,
            enforces_secure_chat: None,
            previews_chat: None,
            prevents_chat_reports: None,
            is_modded: None,
            modinfo: None,
            forge_data: None,
            modpack: None,
        },
        raw_json: String::new(),
        address: addr,
        is_legacy: true,
    }
}

/// What to do after the usual ping.
pub enum AfterPing {
    /// The ping is over.
    Done(Result<PingResult, PingError>),
    /// Try the ping of old servers; where that fails too, this is the outcome.
    TryLegacy(PingError),
}

/// What to do after the usual ping: a failure is followed by the ping of old servers where that is
/// allowed.
pub fn after_ping(r: Result<PingResult, PingError>, opts: &PingOptions) -> (next: AfterPing)
    ensures
        match r {
            Ok(_) => next == AfterPing::Done(r),
            Err(e) => next == (if opts.allow_legacy {
                AfterPing::TryLegacy(e)
            } else {
                AfterPing::Done(r)
            }),
        },
{
    match r {
        Ok(x) => AfterPing::Done(Ok(x)),
        Err(e) => {
            if opts.allow_legacy {
                AfterPing::TryLegacy(e)
            } else {
                AfterPing::Done(Err(e))
            }
        },
    }
}

/// The outcome after the ping of old servers; where it failed, the first failure counts.
pub fn after_legacy(
    first: PingError,
    legacy: Result<(LegacyStatus, u128), PingError>,
    addr: ResolvedAddress,
) -> (r: Result<PingResult, PingError>)
    ensures
        ping_result(r) == (match legacy {
            Ok((s, latency)) => Ok::<ResultView, PingErrorView>(legacy_view(s, latency, addr)),
            Err(_) => Err(first@),
        }),
{
    match legacy {
        Ok((s, latency)) => Ok(from_legacy(s, latency, addr)),
        Err(_) => Err(first),
    }
}

/// The options for a ping as a given version; a version without a protocol number makes it a mere
/// ping.
pub fn options_as(opts: &PingOptions, protocol: Option<i32>) -> (r: PingOptions)
    ensures
        r == (PingOptions {
            protocol_version: match protocol {
                Some(n) => n,
                None => (-1) as i32,
            },
            ..*opts
        }),
{
    PingOptions {
        protocol_version: match protocol {
            Some(n) => n,
            None => -1,
        },
        ..*opts
    }
}

/// The status is the one that a proxy makes up for a client that it does not know.
pub open spec fn is_placeholder(s: StatusView) -> bool {
    s.version.name == Some("ViaProxy"@) && s.version.protocol < 0
}

/// Whether the status is the one that a proxy makes up for a client that it does not know.
pub fn is_proxy_placeholder(s: &StatusResponse) -> (r: bool)
    ensures
        r == is_placeholder(s.model()),
{
    let named = match &s.version.name {
        Some(n) => text::same(n.as_str(), "ViaProxy"),
        None => false,
    };
    named && s.version.protocol < 0
}

/// The greatest number of a list.
pub open spec fn greatest(list: Seq<i32>) -> Option<i32>
    decreases list.len(),
{
    if list.len() == 0 {
        None
    } else {
        match greatest(list.drop_last()) {
            Some(m) => if m > list.last() {
                Some(m)
            } else {
                Some(list.last())
            },
            None => Some(list.last()),
        }
    }
}

/// The list without numbers that repeat the one before.
pub open spec fn without_repeats(list: Seq<i32>) -> Seq<i32>
    decreases list.len(),
{
    if list.len() == 0 {
        Seq::empty()
    } else {
        let before = without_repeats(list.drop_last());
        if before.len() > 0 && before.last() == list.last() {
            before
        } else {
            before.push(list.last())
        }
    }
}

/// The protocol numbers to try on a proxy: the greatest that it says it takes, then those of the
/// ladder.
pub open spec fn probes(supported: Seq<i32>, ladder: Seq<i32>) -> Seq<i32> {
    without_repeats(
        match greatest(supported) {
            Some(m) => seq![m] + ladder,
            None => ladder,
        },
    )
}

/// The greatest number of a list.
pub fn max_of(list: &Vec<i32>) -> (r: Option<i32>)
    ensures
        r == greatest(list@),
{
    let mut best: Option<i32> = None;
    assert(list@.take(0) =~= Seq::empty());
    for i in 0..list.len()
        invariant
            best == greatest(list@.take(i as int)),
    {
        assert(list@.take(i + 1).drop_last() =~= list@.take(i as int));
        let n: i32 = list[i];
        best =
        match best {
            Some(m) => if m > n {
                Some(m)
            } else {
                Some(n)
            },
            None => Some(n),
        };
    }
    assert(list@.take(list@.len() as int) =~= list@);
    best
}

/// The protocol numbers to try on a proxy.
pub fn probe_candidates(supported: &Vec<i32>, ladder: &[i32]) -> (r: Vec<i32>)
    ensures
        r@ == probes(supported@, ladder@),
{
    let mut all: Vec<i32> = Vec::new();
    if let Some(m) = max_of(supported) {
        all.push(m);
    }
    all.extend_from_slice(ladder);
    assert(all@ =~= (match greatest(supported@) {
        Some(m) => seq![m] + ladder@,
        None => ladder@,
    }));
    let mut out: Vec<i32> = Vec::new();
    assert(all@.take(0) =~= Seq::empty());
    for i in 0..all.len()
        invariant
            out@ == without_repeats(all@.take(i as int)),
    {
        assert(all@.take(i + 1).drop_last() =~= all@.take(i as int));
        let n: i32 = all[i];
        let k: usize = out.len();
        if !(k > 0 && out[k - 1] == n) {
            out.push(n);
        }
    }
    assert(all@.take(all@.len() as int) =~= all@);
    out
}

/// The probing of a proxy: what it said first, the protocol numbers to try, and how many of them
/// have been tried.
pub struct Probing {
    pub first: PingResult,
    pub candidates: Vec<i32>,
    pub tried: usize,
}

/// What to do to get behind a proxy.
pub enum Resolve {
    /// The ping is over.
    Done(Result<PingResult, PingError>),
    /// Ping with this protocol number.
    Probe(i32, Probing),
}

/// What to do when `tried` of the candidates have been tried in vain: try the next one, or be
/// content with what was said first.
pub open spec fn next_probe(p: Probing) -> Resolve {
    if p.tried < p.candidates@.len() {
        Resolve::Probe(p.candidates@[p.tried as int], p)
    } else {
        Resolve::Done(Ok(p.first))
    }
}

/// What to do when the candidates so far have been tried in vain.
fn probe_next(p: Probing) -> (r: Resolve)
    ensures
        r == next_probe(p),
{
    if p.tried < p.candidates.len() {
        let number: i32 = p.candidates[p.tried];
        Resolve::Probe(number, p)
    } else {
        Resolve::Done(Ok(p.first))
    }
}

/// What to do after the first ping: only the made-up status of a proxy calls for more.
pub fn begin_resolve(outcome: Result<PingResult, PingError>, ladder: &[i32]) -> (r: Resolve)
    ensures
        match outcome {
            Ok(x) => if is_placeholder(x.model().status) {
                exists|p: Probing| #[trigger]
                    next_probe(p) == r && p.first == x && p.tried == 0 && p.candidates@ == probes(
                        x.status.version.supported_versions@,
                        ladder@,
                    )
            } else {
                r == Resolve::Done(outcome)
            },
            Err(_) => r == Resolve::Done(outcome),
        },
{
    match outcome {
        Ok(x) => {
            if is_proxy_placeholder(&x.status) {
                let candidates = probe_candidates(&x.status.version.supported_versions, ladder);
                let p = Probing { first: x, candidates, tried: 0 };
                let r = probe_next(p);
                assert(next_probe(p) == r);
                r
            } else {
                Resolve::Done(Ok(x))
            }
        },
        Err(e) => Resolve::Done(Err(e)),
    }
}

/// What to do after a probe: one that got through is the outcome, after any other the next candidate
/// is tried.
pub fn after_probe(p: Probing, outcome: Result<PingResult, PingError>) -> (r: Resolve)
    requires
        p.tried < p.candidates.len(),
    ensures
        if succeeded(outcome) {
            r == Resolve::Done(outcome)
        } else {
            r == next_probe(Probing { tried: (p.tried + 1) as usize, ..p })
        },
{
    if probe_succeeded(&outcome) {
        return Resolve::Done(outcome);
    }
    let tried: usize = p.tried + 1;
    probe_next(Probing { first: p.first, candidates: p.candidates, tried })
}

/// A probe got through the proxy.
pub open spec fn succeeded(r: Result<PingResult, PingError>) -> bool {
    match r {
        Ok(x) => !is_placeholder(x.model().status),
        Err(_) => false,
    }
}

/// Whether a probe got through the proxy.
pub fn probe_succeeded(r: &Result<PingResult, PingError>) -> (ok: bool)
    ensures
        ok == succeeded(*r),
{
    match r {
        Ok(x) => !is_proxy_placeholder(&x.status),
        Err(_) => false,
    }
}

// ---- laws ----

/// The host can stand in front of a port.
pub open spec fn plain_host(host: Seq<char>) -> bool {
    &&& host.len() > 0
    &&& !host.contains(':')
    &&& host[0] != '['
    &&& !text::is_white(host[0])
}

proof fn lemma_port(port: u16)
    ensures
        text::as_u16(text::decimal(port as nat)) == Some(port),
        text::decimal(port as nat).len() > 0,
        !text::is_white(text::decimal(port as nat).last()),
        !text::decimal(port as nat).contains(':'),
{
    let d = text::decimal(port as nat);
    text::decimal_round_trip(port as int);
    text::decimal_is_digits(port as nat);
    assert(text::is_digit(d[d.len() - 1]));
    if d.contains(':') {
        let k = choose|k: int| 0 <= k < d.len() && d[k] == ':';
        assert(text::is_digit(d[k]));
    }
}

/// A host and a port that are written as one address are read as they were written.
pub proof fn address_round_trip(host: Seq<char>, port: u16)
    requires
        plain_host(host),
    ensures
        address_of(host + seq![':'] + text::decimal(port as nat)) == Ok::<
            (Seq<char>, u16, bool),
            PingErrorView,
        >((host, port, true)),
{
    let d = text::decimal(port as nat);
    let t = host + seq![':'] + d;
    lemma_port(port);
    assert(t[0] == host[0]);
    assert(t.last() == d.last());
    text::trimming_keeps_tight_text(t);
    let parts = seq![host, d];
    assert(parts.drop_last() =~= seq![host]);
    assert(text::joined(seq![host], seq![':']) == host);
    assert(text::joined(parts, seq![':']) =~= t);
    assert forall|i: int| 0 <= i < parts.len() implies !(#[trigger] parts[i]).contains(':') by {}
    text::splitting_undoes_joining(parts, ':');
}

/// A host without a port has the default one.
pub proof fn host_has_default_port(host: Seq<char>)
    requires
        plain_host(host),
        !text::is_white(host.last()),
    ensures
        address_of(host) == Ok::<(Seq<char>, u16, bool), PingErrorView>(
            (host, DEFAULT_PORT, false),
        ),
{
    let parts = seq![host];
    assert(text::joined(parts, seq![':']) =~= host);
    assert forall|i: int| 0 <= i < parts.len() implies !(#[trigger] parts[i]).contains(':') by {}
    text::splitting_undoes_joining(parts, ':');
}

proof fn lemma_position(ip: Seq<char>, rest: Seq<char>)
    requires
        !ip.contains(']'),
    ensures
        text::position(ip + seq![']'] + rest, seq![']']) == Some(ip.len()),
    decreases ip.len(),
{
    let s = ip + seq![']'] + rest;
    if ip.len() == 0 {
        assert(s.take(1) =~= seq![']']);
    } else {
        let tail = ip.drop_first();
        assert(s.take(1)[0] == ip[0]);
        assert(ip.contains(ip[0]));
        assert(s.take(1) != seq![']']) by {
            assert(seq![']'][0] == ']');
        }
        assert(!tail.contains(']')) by {
            if tail.contains(']') {
                let k = choose|k: int| 0 <= k < tail.len() && tail[k] == ']';
                assert(ip[k + 1] == ']');
            }
        }
        lemma_position(tail, rest);
        assert(s.drop_first() =~= tail + seq![']'] + rest);
    }
}

/// An address in brackets with a port is read as it was written.
pub proof fn bracketed_address_round_trip(ip: Seq<char>, port: u16)
    requires
        !ip.contains(']'),
    ensures
        address_of(seq!['['] + (ip + seq![']'] + (seq![':'] + text::decimal(port as nat)))) == Ok::<
            (Seq<char>, u16, bool),
            PingErrorView,
        >((ip, port, true)),
{
    let d = text::decimal(port as nat);
    let tail = seq![':'] + d;
    let rest = ip + seq![']'] + tail;
    let t = seq!['['] + rest;
    lemma_port(port);
    assert(t.last() == d.last());
    assert(t.first() == '[');
    text::trimming_keeps_tight_text(t);
    assert(t.skip(1) =~= rest);
    lemma_bracketed(ip, tail);
    assert(tail.skip(1) =~= d);
}

proof fn lemma_bracketed(ip: Seq<char>, tail: Seq<char>)
    requires
        !ip.contains(']'),
    ensures
        text::cut(ip + seq![']'] + tail, "]"@) == Some((ip, tail)),
{
    let rest = ip + seq![']'] + tail;
    lemma_position(ip, tail);
    reveal_strlit("]");
    assert("]"@ =~= seq![']']);
    assert(rest.take(ip.len() as int) =~= ip);
    assert(rest.skip((ip.len() + 1) as int) =~= tail);
}

/// The greatest number that a proxy says it takes is tried first, and none is tried twice in a row.
pub proof fn probes_start_with_the_greatest(supported: Seq<i32>, ladder: Seq<i32>)
    requires
        supported.len() > 0,
    ensures
        probes(supported, ladder).len() > 0,
        Some(probes(supported, ladder)[0]) == greatest(supported),
        forall|i: int|
            0 <= i < probes(supported, ladder).len() - 1 ==> probes(supported, ladder)[i] != #[trigger] probes(
                supported,
                ladder,
            )[i + 1],
{
    lemma_greatest(supported);
    let all = seq![greatest(supported)->0] + ladder;
    lemma_without_repeats(all);
    assert(all.len() > 0);
}

proof fn lemma_greatest(list: Seq<i32>)
    ensures
        greatest(list) is Some <==> list.len() > 0,
        greatest(list) matches Some(m) ==> list.contains(m) && forall|i: int|
            0 <= i < list.len() ==> #[trigger] list[i] <= m,
    decreases list.len(),
{
    if list.len() > 0 {
        let before = list.drop_last();
        lemma_greatest(before);
        assert(list[list.len() - 1] == list.last());
        let m = greatest(list)->0;
        if before.len() > 0 && m == greatest(before)->0 && m != list.last() {
            let k = choose|k: int| 0 <= k < before.len() && before[k] == m;
            assert(list[k] == m);
        }
        assert forall|i: int| 0 <= i < list.len() implies #[trigger] list[i] <= m by {
            if i < before.len() {
                assert(list[i] == before[i]);
            }
        }
    }
}

proof fn lemma_without_repeats(list: Seq<i32>)
    ensures
        list.len() > 0 ==> without_repeats(list).len() > 0 && without_repeats(list)[0] == list[0],
        forall|i: int|
            0 <= i < without_repeats(list).len() - 1 ==> without_repeats(list)[i]
                != #[trigger] without_repeats(list)[i + 1],
    decreases list.len(),
{
    if list.len() > 0 {
        let before = without_repeats(list.drop_last());
        let all = without_repeats(list);
        lemma_without_repeats(list.drop_last());
        assert(list.len() == 1 ==> before.len() == 0);
        assert forall|i: int| 0 <= i < all.len() - 1 implies all[i] != #[trigger] all[i + 1] by {
            if i + 1 < before.len() {
                assert(before[i] != before[i + 1]);
            }
        }
    }
}

/// No supported protocol number is greater than the one that counts as the greatest.
pub proof fn greatest_is_greatest(list: Seq<i32>, i: int)
    requires
        0 <= i < list.len(),
    ensures
        greatest(list) is Some,
        list.contains(greatest(list)->0),
        list[i] <= greatest(list)->0,
{
    lemma_greatest(list);
}

impl Clone for PingResult {
    fn clone(&self) -> (r: Self)
        ensures
            r.model() == self.model(),
    {
        PingResult {
            latency: self.latency,
            status: self.status.clone(),
            raw_json: self.raw_json.clone(),
            address: ResolvedAddress {
                host: self.address.host.clone(),
                port: self.address.port,
                via_srv: self.address.via_srv,
            },
            is_legacy: self.is_legacy,
        }
    }
}

// ---- what an outcome says ----

/// An outcome has the latency that was measured, the address that was asked, the text that the server
/// sent, and the status that this text describes.
pub proof fn answers_say_what_was_sent(
    latency: Option<u128>,
    raw: Seq<char>,
    version: Option<Seq<char>>,
    addr: ResolvedAddress,
    readings: Seq<(Seq<char>, i64)>,
)
    ensures
        match (outside::json_of(raw), answered(latency, raw, version, addr, readings)) {
            (Ok(v), Ok(r)) => {
                let s = status::status_of(v, readings);
                &&& r.latency == latency
                &&& r.raw_json == raw
                &&& r.host == addr.host@ && r.port == addr.port && r.via_srv == addr.via_srv
                &&& !r.is_legacy
                &&& r.status == (StatusView { modpack: r.status.modpack, ..s })
                &&& s.modpack is Some ==> r.status.modpack == s.modpack
                &&& s.modpack is None && version is None ==> r.status.modpack is None
                &&& s.modpack is None && version is Some ==> {
                    let t = text::trimmed(version->0);
                    r.status.modpack == (if t.len() > 0 {
                        Some((Seq::<char>::empty(), t))
                    } else {
                        None
                    })
                }
            },
            (Err(e), Err(x)) => x == PingErrorView::Json(e),
            _ => false,
        },
{
}

/// The outcome of the ping of an old server says what the server said, and how long it took.
pub proof fn old_answers_say_what_was_sent(s: LegacyStatus, latency: u128, addr: ResolvedAddress)
    ensures
        ({
            let r = legacy_view(s, latency, addr);
            &&& r.latency == Some(latency)
            &&& r.is_legacy && r.raw_json.len() == 0
            &&& r.host == addr.host@ && r.port == addr.port && r.via_srv == addr.via_srv
            &&& r.status.version.protocol == s.protocol
            &&& s.version@.len() > 0 ==> r.status.version.name == Some(s.version@)
            &&& s.version@.len() == 0 ==> r.status.version.name is None
            &&& component::content(r.status.description) == s.motd@
            &&& s.online < 0 && s.max < 0 ==> r.status.players is None
            &&& s.online >= 0 || s.max >= 0 ==> r.status.players is Some
                && r.status.players->0.online == s.online && r.status.players->0.max == s.max
            &&& r.status.favicon is None && r.status.modpack is None
        }),
{
}

/// What a result holds is what its fields say.
pub proof fn results_hold_their_fields(r: PingResult)
    ensures
        r.model().latency == r.latency,
        r.model().raw_json == r.raw_json@,
        r.model().host == r.address.host@,
        r.model().port == r.address.port,
        r.model().via_srv == r.address.via_srv,
        r.model().is_legacy == r.is_legacy,
        r.model().status.version.protocol == r.status.version.protocol,
        r.model().status.favicon == text::opt_view(r.status.favicon),
        r.status.players is Some ==> r.model().status.players is Some
            && r.model().status.players->0.online == r.status.players->0.online
            && r.model().status.players->0.max == r.status.players->0.max
            && r.model().status.players->0.sample.len() == r.status.players->0.sample@.len(),
        r.status.players is None ==> r.model().status.players is None,
{
}

/// Only a status by the name of the proxy with a negative protocol number is one that it made up.
pub proof fn only_made_up_statuses_are_probed(s: StatusView)
    ensures
        is_placeholder(s) <==> s.version.name == Some("ViaProxy"@) && s.version.protocol < 0,
{
}

/// The numbers that are tried on a proxy are those of the ladder in their order, behind the greatest
/// that it supports; a number is left out only where it would follow itself.
pub proof fn probes_follow_the_ladder(supported: Seq<i32>, ladder: Seq<i32>, n: i32)
    ensures
        supported.len() == 0 && ladder.len() == 0 ==> probes(supported, ladder).len() == 0,
        probes(supported, ladder.push(n)).len() > 0 && probes(supported, ladder.push(n)).last()
            == n,
        probes(supported, ladder).is_prefix_of(probes(supported, ladder.push(n))),
        probes(supported, ladder.push(n)).len() <= probes(supported, ladder).len() + 1,
{
    match greatest(supported) {
        Some(m) => {
            let a = seq![m] + ladder;
            assert(seq![m] + ladder.push(n) =~= a.push(n));
            assert(a.push(n).drop_last() =~= a);
        },
        None => {
            assert(ladder.push(n).drop_last() =~= ladder);
        },
    }
}

/// A frame is taken where its length lies between one and the limit.
pub proof fn frame_lengths_are_limited(len: u32, max: usize)
    ensures
        1 <= len <= max ==> length_result(len, max) == Ok::<usize, PingErrorView>(len as usize),
        len == 0 || len > max ==> length_result(len, max) is Err,
{
}

/// A server that sends a ping back as it came, with the version of a modpack behind it, is understood.
pub proof fn pong_with_version_round_trip(version: Seq<char>)
    requires
        vstd::utf8::encode_utf8(version).len() <= 256,
    ensures
        pong_of(
            codec::varint_bytes(1) + codec::be_bytes(codec::unsigned64(PING_PAYLOAD as int), 8)
                + codec::string_bytes(version),
        ) == Ok::<Option<Seq<char>>, PingErrorView>(
            if text::trimmed(version).len() > 0 {
                Some(text::trimmed(version))
            } else {
                None
            },
        ),
{
    let payload = codec::be_bytes(codec::unsigned64(PING_PAYLOAD as int), 8);
    let tail = codec::string_bytes(version);
    let frame = codec::varint_bytes(1) + payload + tail;
    assert(frame =~= codec::varint_bytes(1) + (payload + tail));
    codec::varint_round_trip(1, payload + tail);
    let n = codec::varint_bytes(1).len() as int;
    assert(frame.skip(n) =~= payload + tail);
    codec::i64_round_trip(PING_PAYLOAD, tail);
    assert((payload + tail).skip(8) =~= tail);
    codec::string_round_trip(version, Seq::empty(), 256);
    assert(tail + Seq::<u8>::empty() =~= tail);
}

/// An address without a host, with brackets that do not close or with a port that is no number is
/// refused; one with several colons and no brackets is all host.
pub proof fn addresses_are_checked(host: Seq<char>, port: Seq<char>, s: Seq<char>)
    requires
        s.len() > 0,
        !text::is_white(s.first()),
        !text::is_white(s.last()),
    ensures
        address_of(Seq::empty()) is Err,
        text::as_u16(port) is None ==> with_port(host, port) == Err::<
            (Seq<char>, u16, bool),
            PingErrorView,
        >(PingErrorView::Address("端口非法"@)),
        s[0] != '[' && text::pieces(s, ':').len() != 2 ==> address_of(s) == Ok::<
            (Seq<char>, u16, bool),
            PingErrorView,
        >((s, 25565, false)),
        s[0] != '[' && text::pieces(s, ':').len() == 2 && text::as_u16(
            text::pieces(s, ':')[1],
        ) is None ==> address_of(s) is Err,
        s[0] == '[' && !s.contains(']') ==> address_of(s) is Err,
{
    text::trimming_keeps_tight_text(s);
    reveal_strlit("]");
    if !s.contains(']') {
        let rest = s.skip(1);
        assert forall|i: int| 0 <= i < rest.len() implies (#[trigger] rest[i]) != "]"@[0] by {
            assert(rest[i] == s[i + 1]);
            assert(s.contains(s[i + 1]));
        }
        text::texts_without_the_pattern_stay_whole(rest, "]"@);
    }
}

/// A packet with another number than the one that is awaited is refused, and so is a ping that comes
/// back changed.
pub proof fn wrong_packets_are_refused(id: i32, payload: i64, rest: Seq<u8>)
    ensures
        id != 0 ==> status_text_of(codec::varint_bytes(codec::unsigned32(id as int)) + rest) is Err,
        id != 1 ==> pong_of(codec::varint_bytes(codec::unsigned32(id as int)) + rest) is Err,
        payload != PING_PAYLOAD ==> pong_of(
            codec::varint_bytes(1) + (codec::be_bytes(codec::unsigned64(payload as int), 8) + rest),
        ) is Err,
{
    codec::varint_round_trip(id, rest);
    let back = codec::be_bytes(codec::unsigned64(payload as int), 8);
    codec::varint_round_trip(1, back + rest);
    let frame = codec::varint_bytes(1) + (back + rest);
    let n = codec::varint_bytes(1).len() as int;
    assert(frame.skip(n) =~= back + rest);
    codec::i64_round_trip(payload, rest);
}

/// A length that goes on behind its third byte is too long.
pub proof fn long_lengths_are_refused(f: FrameLen, b: u8)
    requires
        f.wf(),
    ensures
        b >= 128 && f.count == 2 ==> f.step(b) is TooLong,
        b >= 128 && f.count < 2 ==> f.step(b) is More,
        b < 128 ==> f.step(b) is Length,
{
}

/// Each failure says of what kind it is, and then what was the matter.
pub proof fn failures_say_their_kind(s: Seq<char>)
    ensures
        PingErrorView::Address(s).text() == "地址无法解析: "@ + s,
        PingErrorView::Io(s).text() == "网络错误: "@ + s,
        PingErrorView::Timeout.text() == "连接超时"@,
        PingErrorView::Protocol(s).text() == "协议错误: "@ + s,
        PingErrorView::Json(s).text() == "状态 JSON 解析失败: "@ + s,
{
}

} // verus!
