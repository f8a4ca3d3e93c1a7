//! The wire format of the status exchange: variable-length integers, strings and packets.
//!
//! Nothing here touches a socket. Packets of the status state are neither compressed nor
//! encrypted, so a frame is always `VarInt(length) + VarInt(id) + data`, where the length counts
//! the bytes of the last two.
//!
//! A VarInt holds seven bits per byte, the lowest group first; the top bit of a byte says that
//! another byte follows. Negative numbers are stored in two's complement, so they always take the
//! full length. All other numbers of more than one byte are big-endian.

use vstd::prelude::*;
use vstd::utf8::{decode_utf8, encode_utf8, valid_utf8};

verus! {

/// The most bytes that a VarInt takes.
pub const MAX_VARINT_BYTES: usize = 5;

/// The most bytes that a VarLong takes.
pub const MAX_VARLONG_BYTES: usize = 10;

/// What can be wrong with a packet body.
#[derive(Debug, Clone, Copy, PartialEq, Eq, Structural)]
pub enum CodecError {
    /// The body ends before the value does.
    OutOfBounds,
    /// No VarInt ends within five bytes.
    VarIntTooLong,
    /// The length of a string is negative.
    NegativeLength,
    /// A string is longer than the reader allows.
    StringTooLong,
    /// The bytes of a string are not UTF-8.
    InvalidUtf8,
}

impl CodecError {
    /// The text shown for the error.
    pub open spec fn text(self) -> Seq<char> {
        match self {
            CodecError::OutOfBounds => "包体读越界"@,
            CodecError::VarIntTooLong => "VarInt 过长"@,
            CodecError::NegativeLength => "字符串长为负"@,
            CodecError::StringTooLong => "字符串超长"@,
            CodecError::InvalidUtf8 => "字符串非合法 UTF-8"@,
        }
    }

    /// The text shown for the error.
    pub fn message(&self) -> (r: String)
        ensures
            r@ == self.text(),
    {
        let s = match self {
            CodecError::OutOfBounds => "包体读越界",
            CodecError::VarIntTooLong => "VarInt 过长",
            CodecError::NegativeLength => "字符串长为负",
            CodecError::StringTooLong => "字符串超长",
            CodecError::InvalidUtf8 => "字符串非合法 UTF-8",
        };
        s.to_owned()
    }
}

// ---- numbers ----

/// The 32-bit two's complement of `v`, as an unsigned number.
pub open spec fn unsigned32(v: int) -> nat {
    if v >= 0 {
        v as nat
    } else {
        (v + 0x1_0000_0000) as nat
    }
}

/// The number whose 32-bit two's complement is `u`.
pub open spec fn signed32(u: nat) -> int {
    if u < 0x8000_0000 {
        u as int
    } else {
        u - 0x1_0000_0000
    }
}

/// The 64-bit two's complement of `v`, as an unsigned number.
pub open spec fn unsigned64(v: int) -> nat {
    if v >= 0 {
        v as nat
    } else {
        (v + 0x1_0000_0000_0000_0000) as nat
    }
}

/// The number whose 64-bit two's complement is `u`.
pub open spec fn signed64(u: nat) -> int {
    if u < 0x8000_0000_0000_0000 {
        u as int
    } else {
        u - 0x1_0000_0000_0000_0000
    }
}

/// `u` in groups of seven bits, the lowest first, each but the last with the top bit set.
pub open spec fn varint_bytes(u: nat) -> Seq<u8>
    decreases u,
{
    if u < 128 {
        seq![u as u8]
    } else {
        seq![(u % 128 + 128) as u8] + varint_bytes(u / 128)
    }
}

/// The lowest `n` bytes of `u`, the highest of them first.
pub open spec fn be_bytes(u: nat, n: nat) -> Seq<u8>
    decreases n,
{
    if n == 0 {
        Seq::empty()
    } else {
        be_bytes(u / 256, (n - 1) as nat).push((u % 256) as u8)
    }
}

/// The number that the bytes stand for, the highest first.
pub open spec fn be_value(s: Seq<u8>) -> nat
    decreases s.len(),
{
    if s.len() == 0 {
        0
    } else {
        be_value(s.drop_last()) * 256 + s.last() as nat
    }
}

/// How many bytes at the start of `s` say that another one follows.
pub open spec fn continued(s: Seq<u8>) -> nat
    decreases s.len(),
{
    if s.len() > 0 && s[0] >= 128 {
        1 + continued(s.drop_first())
    } else {
        0
    }
}

/// The number made of the low seven bits of each byte, the lowest group first.
pub open spec fn groups_value(s: Seq<u8>) -> nat
    decreases s.len(),
{
    if s.len() == 0 {
        0
    } else {
        (s[0] % 128) as nat + 128 * groups_value(s.drop_first())
    }
}

/// What reading a VarInt at the start of `s` gives, and how many bytes it takes.
pub open spec fn varint_at(s: Seq<u8>) -> (Result<i32, CodecError>, nat) {
    let n = continued(s);
    if n >= 5 {
        (Err(CodecError::VarIntTooLong), 5)
    } else if n >= s.len() {
        (Err(CodecError::OutOfBounds), s.len())
    } else {
        (Ok(signed32(groups_value(s.take((n + 1) as int)) % 0x1_0000_0000) as i32), n + 1)
    }
}

/// What reading a string of at most `max` bytes at the start of `s` gives, and how many bytes it
/// takes.
pub open spec fn string_at(s: Seq<u8>, max: nat) -> (Result<Seq<char>, CodecError>, nat) {
    let (head, n) = varint_at(s);
    match head {
        Err(e) => (Err(e), n),
        Ok(len) => if len < 0 {
            (Err(CodecError::NegativeLength), n)
        } else if len > max {
            (Err(CodecError::StringTooLong), n)
        } else if n + len > s.len() {
            (Err(CodecError::OutOfBounds), n)
        } else {
            let bytes = s.subrange(n as int, n + len);
            if valid_utf8(bytes) {
                (Ok(decode_utf8(bytes)), n + len as nat)
            } else {
                (Err(CodecError::InvalidUtf8), n + len as nat)
            }
        },
    }
}

/// What reading `width` bytes at the start of `s` gives as an unsigned number, and how many bytes
/// it takes.
pub open spec fn be_at(s: Seq<u8>, width: nat) -> (Result<nat, CodecError>, nat) {
    if s.len() < width {
        (Err(CodecError::OutOfBounds), 0)
    } else {
        (Ok(be_value(s.take(width as int))), width)
    }
}

/// The characters of a string that was read.
pub open spec fn text_result(r: Result<String, CodecError>) -> Result<Seq<char>, CodecError> {
    match r {
        Ok(s) => Ok(s@),
        Err(e) => Err(e),
    }
}

/// A string on the wire: the number of its UTF-8 bytes, then these.
pub open spec fn string_bytes(s: Seq<char>) -> Seq<u8> {
    varint_bytes(encode_utf8(s).len() % 0x1_0000_0000) + encode_utf8(s)
}

/// A packet on the wire.
pub open spec fn packet_bytes(id: int, payload: Seq<u8>) -> Seq<u8> {
    let inner = varint_bytes(unsigned32(id)) + payload;
    varint_bytes(inner.len() % 0x1_0000_0000) + inner
}

/// The two's complement of `v`.
fn to_unsigned32(v: i32) -> (u: u32)
    ensures
        u == unsigned32(v as int),
{
    if v >= 0 {
        v as u32
    } else {
        (v as i64 + 0x1_0000_0000) as u32
    }
}

/// The two's complement of `v`.
fn to_unsigned64(v: i64) -> (u: u64)
    ensures
        u == unsigned64(v as int),
{
    if v >= 0 {
        v as u64
    } else {
        (v as i128 + 0x1_0000_0000_0000_0000) as u64
    }
}

/// Writes `value` in groups of seven bits.
fn write_groups(buf: &mut Vec<u8>, value: u64)
    ensures
        final(buf)@ == old(buf)@ + varint_bytes(value as nat),
{
    let mut u: u64 = value;
    let ghost start = buf@;
    while u >= 128
        invariant
            buf@ + varint_bytes(u as nat) =~= start + varint_bytes(value as nat),
        decreases u,
    {
        buf.push((u % 128 + 128) as u8);
        u = u / 128;
    }
    buf.push(u as u8);
    assert(buf@ =~= start + varint_bytes(value as nat));
}

/// Writes a VarInt.
pub fn write_varint(buf: &mut Vec<u8>, value: i32)
    ensures
        final(buf)@ == old(buf)@ + varint_bytes(unsigned32(value as int)),
{
    write_groups(buf, to_unsigned32(value) as u64);
}

/// Writes a VarLong.
pub fn write_varlong(buf: &mut Vec<u8>, value: i64)
    ensures
        final(buf)@ == old(buf)@ + varint_bytes(unsigned64(value as int)),
{
    write_groups(buf, to_unsigned64(value));
}

/// Writes a string: the number of its UTF-8 bytes as a VarInt, then these.
pub fn write_string(buf: &mut Vec<u8>, s: &str)
    ensures
        final(buf)@ == old(buf)@ + string_bytes(s@),
{
    let bytes = s.as_bytes();
    write_groups(buf, (bytes.len() as u64) % 0x1_0000_0000);
    let ghost before = buf@;
    buf.extend_from_slice(bytes);
    assert(buf@ =~= before + encode_utf8(s@));
    assert(buf@ =~= old(buf)@ + string_bytes(s@));
}

/// Writes a port, big-endian.
pub fn write_u16(buf: &mut Vec<u8>, v: u16)
    ensures
        final(buf)@ == old(buf)@ + be_bytes(v as nat, 2),
{
    reveal_with_fuel(be_bytes, 3);
    buf.push((v / 256) as u8);
    buf.push((v % 256) as u8);
    assert(buf@ =~= old(buf)@ + be_bytes(v as nat, 2));
}

/// Writes a 64-bit integer, big-endian.
pub fn write_i64(buf: &mut Vec<u8>, v: i64)
    ensures
        final(buf)@ == old(buf)@ + be_bytes(unsigned64(v as int), 8),
{
    write_be(buf, to_unsigned64(v), 8);
}

/// Writes the lowest `n` bytes of `u`, the highest first.
pub fn write_be(buf: &mut Vec<u8>, u: u64, n: usize)
    ensures
        final(buf)@ == old(buf)@ + be_bytes(u as nat, n as nat),
    decreases n,
{
    if n > 0 {
        write_be(buf, u / 256, n - 1);
        buf.push((u % 256) as u8);
    }
    assert(buf@ =~= old(buf)@ + be_bytes(u as nat, n as nat));
}

/// Frames a payload as the packet `id`.
pub fn packet(id: i32, payload: &[u8]) -> (r: Vec<u8>)
    ensures
        r@ == packet_bytes(id as int, payload@),
{
    let mut inner: Vec<u8> = Vec::new();
    write_varint(&mut inner, id);
    inner.extend_from_slice(payload);
    assert(inner@ =~= varint_bytes(unsigned32(id as int)) + payload@);
    let mut out: Vec<u8> = Vec::new();
    write_groups(&mut out, (inner.len() as u64) % 0x1_0000_0000);
    out.extend_from_slice(inner.as_slice());
    assert(out@ =~= packet_bytes(id as int, payload@));
    out
}

/// The fields of a handshake: protocol number, host, port and the state to go to.
pub open spec fn handshake_payload(protocol: int, host: Seq<char>, port: nat, next: int) -> Seq<
    u8,
> {
    varint_bytes(unsigned32(protocol)) + string_bytes(host) + be_bytes(port, 2) + varint_bytes(
        unsigned32(next),
    )
}

/// The handshake packet. `next` is 1 for the status state; the protocol number -1 says that this
/// is a mere ping.
pub fn handshake(protocol: i32, host: &str, port: u16, next: i32) -> (r: Vec<u8>)
    ensures
        r@ == packet_bytes(
            0,
            handshake_payload(protocol as int, host@, port as nat, next as int),
        ),
{
    let mut p: Vec<u8> = Vec::new();
    write_varint(&mut p, protocol);
    write_string(&mut p, host);
    write_u16(&mut p, port);
    write_varint(&mut p, next);
    assert(p@ =~= handshake_payload(protocol as int, host@, port as nat, next as int));
    packet(0x00, p.as_slice())
}

/// The request for the status, a packet without fields.
pub fn status_request() -> (r: Vec<u8>)
    ensures
        r@ == packet_bytes(0, Seq::empty()),
{
    let p: Vec<u8> = Vec::new();
    packet(0x00, p.as_slice())
}

/// The ping request; the server answers with the same number.
pub fn ping_request(payload: i64) -> (r: Vec<u8>)
    ensures
        r@ == packet_bytes(1, be_bytes(unsigned64(payload as int), 8)),
{
    let mut p: Vec<u8> = Vec::new();
    write_i64(&mut p, payload);
    assert(p@ =~= be_bytes(unsigned64(payload as int), 8));
    packet(0x01, p.as_slice())
}

// ---- reading ----

/// A cursor over the bytes of one packet body.
pub struct Reader<'a> {
    buf: &'a [u8],
    pos: usize,
}

impl<'a> Reader<'a> {
    /// The cursor is within the bytes.
    pub closed spec fn wf(self) -> bool {
        self.pos <= self.buf@.len()
    }

    /// The bytes that have not been read.
    pub closed spec fn rest(self) -> Seq<u8> {
        self.buf@.skip(self.pos as int)
    }

    /// A cursor at the start of `buf`.
    pub fn new(buf: &'a [u8]) -> (r: Self)
        ensures
            r.wf(),
            r.rest() == buf@,
    {
        assert(buf@.skip(0) == buf@);
        Self { buf, pos: 0 }
    }

    /// Takes the next `n` bytes, or none where there are fewer.
    fn take(&mut self, n: usize) -> (r: Result<&'a [u8], CodecError>)
        requires
            old(self).wf(),
        ensures
            final(self).wf(),
            old(self).rest().len() < n ==> {
                &&& r == Err::<&'a [u8], CodecError>(CodecError::OutOfBounds)
                &&& *final(self) == *old(self)
            },
            old(self).rest().len() >= n ==> {
                &&& r is Ok
                &&& r->Ok_0@ == old(self).rest().take(n as int)
                &&& final(self).rest() == old(self).rest().skip(n as int)
            },
    {
        if n > self.buf.len() - self.pos {
            return Err(CodecError::OutOfBounds);
        }
        let end: usize = self.pos + n;
        let slice = vstd::slice::slice_subrange(self.buf, self.pos, end);
        self.pos = end;
        assert(slice@ =~= old(self).rest().take(n as int));
        assert(self.rest() =~= old(self).rest().skip(n as int));
        Ok(slice)
    }

    /// Reads one byte.
    pub fn read_u8(&mut self) -> (r: Result<u8, CodecError>)
        requires
            old(self).wf(),
        ensures
            final(self).wf(),
            r == (if old(self).rest().len() > 0 {
                Ok::<u8, CodecError>(old(self).rest()[0])
            } else {
                Err(CodecError::OutOfBounds)
            }),
            final(self).rest() == (if old(self).rest().len() > 0 {
                old(self).rest().drop_first()
            } else {
                old(self).rest()
            }),
    {
        match self.take(1) {
            Ok(s) => {
                assert(old(self).rest().skip(1) =~= old(self).rest().drop_first());
                Ok(s[0])
            },
            Err(e) => Err(e),
        }
    }

    /// How many bytes have not been read.
    pub fn remaining(&self) -> (r: usize)
        requires
            self.wf(),
        ensures
            r == self.rest().len(),
    {
        self.buf.len() - self.pos
    }

    /// Reads a VarInt.
    pub fn read_varint(&mut self) -> (r: Result<i32, CodecError>)
        requires
            old(self).wf(),
        ensures
            final(self).wf(),
            r == varint_at(old(self).rest()).0,
            final(self).rest() == old(self).rest().skip(varint_at(old(self).rest()).1 as int),
    {
        let ghost start = self.rest();
        let mut acc: u64 = 0;
        let mut unit: u64 = 1;
        assert(start.skip(0) =~= start);
        assert(start.take(0) =~= Seq::<u8>::empty());
        for i in 0..MAX_VARINT_BYTES
            invariant
                self.wf(),
                start == old(self).rest(),
                i <= start.len(),
                self.rest() == start.skip(i as int),
                forall|k: int| 0 <= k < i ==> start[k] >= 128,
                acc == groups_value(start.take(i as int)),
                unit == pow128(i as nat),
                acc < unit <= 0x8_0000_0000,
                i < 5 ==> unit <= 0x1000_0000,
        {
            match self.read_u8() {
                Err(e) => {
                    proof {
                        lemma_continued(start, i as nat);
                    }
                    return Err(e);
                },
                Ok(b) => {
                    proof {
                        assert(b == start[i as int]);
                        lemma_groups_value_push(start, i as nat);
                        assert(self.rest() =~= start.skip(i + 1));
                        reveal_with_fuel(pow128, 6);
                    }
                    let d: u64 = (b % 128) as u64;
                    assert(0 <= d * unit <= 127 * unit) by (nonlinear_arith)
                        requires
                            0 <= d <= 127,
                            0 <= unit,
                    ;
                    acc = acc + d * unit;
                    unit = unit * 128;
                    if b < 128 {
                        proof {
                            lemma_continued(start, i as nat);
                        }
                        return Ok(from_low32(acc));
                    }
                },
            }
        }
        proof {
            lemma_continued_many(start, 5);
        }
        Err(CodecError::VarIntTooLong)
    }

    /// Reads a 16-bit integer, big-endian.
    pub fn read_i16(&mut self) -> (r: Result<i16, CodecError>)
        requires
            old(self).wf(),
        ensures
            final(self).wf(),
            r == (match be_at(old(self).rest(), 2).0 {
                Ok(u) => Ok::<i16, CodecError>(
                    if u < 0x8000 {
                        u as i16
                    } else {
                        (u - 0x1_0000) as i16
                    },
                ),
                Err(e) => Err(e),
            }),
            final(self).rest() == old(self).rest().skip(be_at(old(self).rest(), 2).1 as int),
    {
        let ghost start = self.rest();
        match self.take(2) {
            Ok(b) => {
                let u: i32 = b[0] as i32 * 256 + b[1] as i32;
                proof {
                    reveal_with_fuel(be_value, 3);
                    assert(start.take(2).drop_last().drop_last() =~= Seq::<u8>::empty());
                }
                Ok(
                    if u < 0x8000 {
                        u as i16
                    } else {
                        (u - 0x1_0000) as i16
                    },
                )
            },
            Err(e) => {
                assert(start.skip(0) =~= start);
                Err(e)
            },
        }
    }

    /// Reads a 64-bit integer, big-endian.
    pub fn read_i64(&mut self) -> (r: Result<i64, CodecError>)
        requires
            old(self).wf(),
        ensures
            final(self).wf(),
            r == (match be_at(old(self).rest(), 8).0 {
                Ok(u) => Ok::<i64, CodecError>(signed64(u) as i64),
                Err(e) => Err(e),
            }),
            final(self).rest() == old(self).rest().skip(be_at(old(self).rest(), 8).1 as int),
    {
        let ghost start = self.rest();
        match self.take(8) {
            Ok(b) => {
                let u: u64 = read_be(b);
                Ok(
                    if u < 0x8000_0000_0000_0000 {
                        u as i64
                    } else {
                        (u as i128 - 0x1_0000_0000_0000_0000) as i64
                    },
                )
            },
            Err(e) => {
                assert(start.skip(0) =~= start);
                Err(e)
            },
        }
    }

    /// Reads a string of at most `max_bytes` bytes.
    pub fn read_string(&mut self, max_bytes: usize) -> (r: Result<String, CodecError>)
        requires
            old(self).wf(),
        ensures
            final(self).wf(),
            text_result(r) == string_at(old(self).rest(), max_bytes as nat).0,
            final(self).rest() == old(self).rest().skip(
                string_at(old(self).rest(), max_bytes as nat).1 as int,
            ),
    {
        let ghost start = self.rest();
        let len: i32 = match self.read_varint() {
            Ok(n) => n,
            Err(e) => {
                return Err(e);
            },
        };
        let ghost n = varint_at(start).1;
        if len < 0 {
            return Err(CodecError::NegativeLength);
        }
        if len as usize > max_bytes {
            return Err(CodecError::StringTooLong);
        }
        match self.take(len as usize) {
            Err(e) => Err(e),
            Ok(b) => {
                assert(b@ =~= start.subrange(n as int, n + len));
                assert(self.rest() =~= start.skip(n + len));
                let owned = vstd::slice::slice_to_vec(b);
                match String::from_utf8(owned) {
                    Ok(s) => Ok(s),
                    Err(_) => Err(CodecError::InvalidUtf8),
                }
            },
        }
    }
}

/// 128 to the power `n`.
pub open spec fn pow128(n: nat) -> nat
    decreases n,
{
    if n == 0 {
        1
    } else {
        pow128((n - 1) as nat) * 128
    }
}

/// The number whose 32-bit two's complement is made of the low bits of `u`.
fn from_low32(u: u64) -> (r: i32)
    ensures
        r == signed32((u as nat) % 0x1_0000_0000),
{
    let low: u64 = u % 0x1_0000_0000;
    if low < 0x8000_0000 {
        low as i32
    } else {
        (low as i64 - 0x1_0000_0000) as i32
    }
}

/// The number that at most eight bytes stand for, the highest first.
fn read_be(b: &[u8]) -> (r: u64)
    requires
        b@.len() <= 8,
    ensures
        r == be_value(b@),
{
    let mut acc: u64 = 0;
    assert(b@.take(0) =~= Seq::<u8>::empty());
    for i in 0..b.len()
        invariant
            b@.len() <= 8,
            acc == be_value(b@.take(i as int)),
            acc < pow256(i as nat),
            i <= 8,
    {
        assert(b@.take(i + 1).drop_last() =~= b@.take(i as int));
        assert(pow256(i as nat) <= 0x100_0000_0000_0000) by {
            reveal_with_fuel(pow256, 9);
        }
        acc = acc * 256 + b[i] as u64;
    }
    assert(b@.take(b@.len() as int) =~= b@);
    acc
}

/// 256 to the power `n`.
pub open spec fn pow256(n: nat) -> nat
    decreases n,
{
    if n == 0 {
        1
    } else {
        pow256((n - 1) as nat) * 256
    }
}

proof fn lemma_continued(s: Seq<u8>, i: nat)
    requires
        i <= s.len(),
        forall|k: int| 0 <= k < i ==> s[k] >= 128,
        i == s.len() || s[i as int] < 128,
    ensures
        continued(s) == i,
    decreases i,
{
    if i > 0 {
        assert forall|k: int| 0 <= k < i - 1 implies s.drop_first()[k] >= 128 by {
            assert(s.drop_first()[k] == s[k + 1]);
        }
        lemma_continued(s.drop_first(), (i - 1) as nat);
    }
}

proof fn lemma_continued_many(s: Seq<u8>, i: nat)
    requires
        i <= s.len(),
        forall|k: int| 0 <= k < i ==> s[k] >= 128,
    ensures
        continued(s) >= i,
    decreases i,
{
    if i > 0 {
        assert forall|k: int| 0 <= k < i - 1 implies s.drop_first()[k] >= 128 by {
            assert(s.drop_first()[k] == s[k + 1]);
        }
        lemma_continued_many(s.drop_first(), (i - 1) as nat);
    }
}

proof fn lemma_groups_value_push(s: Seq<u8>, i: nat)
    requires
        i < s.len(),
    ensures
        groups_value(s.take((i + 1) as int)) == groups_value(s.take(i as int)) + (s[i as int] % 128)
            * pow128(i),
    decreases i,
{
    if i == 0 {
        assert(s.take(1).drop_first() =~= Seq::<u8>::empty());
        assert(s.take(0) =~= Seq::<u8>::empty());
        assert(groups_value(s.take(1).drop_first()) == 0);
        assert(groups_value(s.take(1)) == (s[0] % 128) as nat);
        assert(pow128(0) == 1);
    } else {
        let t = s.drop_first();
        lemma_groups_value_push(t, (i - 1) as nat);
        assert(s.take((i + 1) as int).drop_first() =~= t.take(i as int));
        assert(s.take(i as int).drop_first() =~= t.take(i - 1));
        let d = (s[i as int] % 128) as nat;
        let p = pow128((i - 1) as nat);
        assert(t[i - 1] == s[i as int]);
        assert(groups_value(s.take((i + 1) as int)) == (s[0] % 128) as nat + 128 * groups_value(
            t.take(i as int),
        ));
        assert(groups_value(s.take(i as int)) == (s[0] % 128) as nat + 128 * groups_value(
            t.take(i - 1),
        ));
        assert(groups_value(t.take(i as int)) == groups_value(t.take(i - 1)) + d * p);
        assert(pow128(i) == p * 128);
        assert(128 * (d * p) == d * (p * 128)) by (nonlinear_arith);
    }
}

proof fn lemma_varint_shape(u: nat, rest: Seq<u8>)
    ensures
        varint_bytes(u).len() >= 1,
        continued(varint_bytes(u) + rest) == varint_bytes(u).len() - 1,
        groups_value(varint_bytes(u)) == u,
    decreases u,
{
    let b = varint_bytes(u);
    let s = b + rest;
    if u < 128 {
        assert(b.drop_first() =~= Seq::<u8>::empty());
        assert(groups_value(b.drop_first()) == 0);
        assert(s[0] == u as u8);
    } else {
        lemma_varint_shape(u / 128, rest);
        let tail = varint_bytes(u / 128);
        assert(b.drop_first() =~= tail);
        assert(s.drop_first() =~= tail + rest);
        assert(s[0] == (u % 128 + 128) as u8);
        assert(b[0] % 128 == u % 128);
    }
}

proof fn lemma_varint_len(u: nat, k: nat)
    requires
        k >= 1,
    ensures
        varint_bytes(u).len() <= k <==> u < pow128(k),
    decreases k,
{
    reveal_with_fuel(pow128, 2);
    if u < 128 {
        lemma_pow128_at_least(k);
    } else if k > 1 {
        lemma_varint_len(u / 128, (k - 1) as nat);
        let p = pow128((k - 1) as nat);
        assert(u / 128 < p <==> u < p * 128) by (nonlinear_arith);
    } else {
        lemma_varint_shape(u / 128, Seq::empty());
    }
}

proof fn lemma_pow128_at_least(k: nat)
    requires
        k >= 1,
    ensures
        pow128(k) >= 128,
    decreases k,
{
    reveal_with_fuel(pow128, 2);
    if k > 1 {
        lemma_pow128_at_least((k - 1) as nat);
    }
}

/// A VarInt takes one to five bytes, and as few as hold its groups of seven bits; a negative
/// number always takes five.
pub proof fn varint_length(v: i32)
    ensures
        1 <= varint_bytes(unsigned32(v as int)).len() <= MAX_VARINT_BYTES,
        v < 0 ==> varint_bytes(unsigned32(v as int)).len() == MAX_VARINT_BYTES,
        forall|k: nat| #![trigger pow128(k)]
            k >= 1 ==> (varint_bytes(unsigned32(v as int)).len() <= k <==> unsigned32(v as int)
                < pow128(k)),
{
    let u = unsigned32(v as int);
    assert forall|k: nat| #![trigger pow128(k)] k >= 1 implies (varint_bytes(u).len() <= k <==> u
        < pow128(k)) by {
        lemma_varint_len(u, k);
    }
    lemma_varint_shape(u, Seq::empty());
    lemma_varint_len(u, 5);
    lemma_varint_len(u, 4);
    reveal_with_fuel(pow128, 6);
}

/// A VarLong takes one to ten bytes; a negative number always takes ten.
pub proof fn varlong_length(v: i64)
    ensures
        1 <= varint_bytes(unsigned64(v as int)).len() <= MAX_VARLONG_BYTES,
        v < 0 ==> varint_bytes(unsigned64(v as int)).len() == MAX_VARLONG_BYTES,
{
    let u = unsigned64(v as int);
    lemma_varint_shape(u, Seq::empty());
    lemma_varint_len(u, 10);
    lemma_varint_len(u, 9);
    reveal_with_fuel(pow128, 11);
}

/// The bytes of a VarLong hold the number: its groups of seven bits give it back, and only the
/// last byte does not ask for another.
pub proof fn varlong_value(v: i64)
    ensures
        signed64(groups_value(varint_bytes(unsigned64(v as int)))) == v,
        continued(varint_bytes(unsigned64(v as int))) == varint_bytes(unsigned64(v as int)).len()
            - 1,
{
    lemma_varint_shape(unsigned64(v as int), Seq::empty());
    let b = varint_bytes(unsigned64(v as int));
    assert(b + Seq::<u8>::empty() =~= b);
}

/// Reading gives back the VarInt that was written, whatever follows it.
pub proof fn varint_round_trip(v: i32, rest: Seq<u8>)
    ensures
        varint_at(varint_bytes(unsigned32(v as int)) + rest) == (
            Ok::<i32, CodecError>(v),
            varint_bytes(unsigned32(v as int)).len(),
        ),
{
    let u = unsigned32(v as int);
    let b = varint_bytes(u);
    lemma_varint_shape(u, rest);
    varint_length(v);
    assert((b + rest).take(b.len() as int) =~= b);
}

/// Reading gives back the string that was written, whatever follows it.
pub proof fn string_round_trip(s: Seq<char>, rest: Seq<u8>, max: nat)
    requires
        encode_utf8(s).len() <= max,
        encode_utf8(s).len() <= i32::MAX,
    ensures
        string_at(string_bytes(s) + rest, max) == (
            Ok::<Seq<char>, CodecError>(s),
            string_bytes(s).len(),
        ),
{
    let bytes = encode_utf8(s);
    let n = bytes.len() as i32;
    let head = varint_bytes(unsigned32(n as int));
    varint_round_trip(n, bytes + rest);
    let all = string_bytes(s) + rest;
    assert(all =~= head + (bytes + rest));
    assert(all.subrange(head.len() as int, head.len() + n) =~= bytes);
    vstd::utf8::encode_utf8_valid_utf8(s);
    vstd::utf8::encode_utf8_decode_utf8(s);
}

proof fn lemma_continued_prefix(s: Seq<u8>, whole: Seq<u8>)
    requires
        s.is_prefix_of(whole),
        continued(s) < s.len(),
    ensures
        continued(whole) == continued(s),
    decreases s.len(),
{
    assert(whole[0] == s[0]);
    if s[0] >= 128 {
        assert(s.drop_first().is_prefix_of(whole.drop_first()));
        lemma_continued_prefix(s.drop_first(), whole.drop_first());
    }
}

/// A VarInt is read alike whatever follows it.
pub proof fn varint_of_prefix(s: Seq<u8>, whole: Seq<u8>)
    requires
        s.is_prefix_of(whole),
        varint_at(s).0 is Ok,
    ensures
        varint_at(whole) == varint_at(s),
        varint_at(s).1 <= s.len(),
{
    lemma_continued_prefix(s, whole);
    let n = (continued(s) + 1) as int;
    assert(whole.take(n) =~= s.take(n));
}

/// A string is read alike whatever follows it.
pub proof fn string_of_prefix(s: Seq<u8>, whole: Seq<u8>, max: nat)
    requires
        s.is_prefix_of(whole),
        string_at(s, max).0 is Ok,
    ensures
        string_at(whole, max) == string_at(s, max),
        string_at(s, max).1 <= s.len(),
{
    varint_of_prefix(s, whole);
    let (head, n) = varint_at(s);
    let len = head->Ok_0;
    assert(whole.subrange(n as int, n + len) =~= s.subrange(n as int, n + len));
}

proof fn lemma_be_round_trip(u: nat, n: nat)
    requires
        u < pow256(n),
    ensures
        be_bytes(u, n).len() == n,
        be_value(be_bytes(u, n)) == u,
    decreases n,
{
    if n > 0 {
        let p = pow256((n - 1) as nat);
        assert(u / 256 < p) by (nonlinear_arith)
            requires
                u < p * 256,
        ;
        lemma_be_round_trip(u / 256, (n - 1) as nat);
        assert(be_bytes(u, n).drop_last() =~= be_bytes(u / 256, (n - 1) as nat));
    }
}

/// Reading gives back the 64-bit integer that was written, whatever follows it.
pub proof fn i64_round_trip(v: i64, rest: Seq<u8>)
    ensures
        be_bytes(unsigned64(v as int), 8).len() == 8,
        be_at(be_bytes(unsigned64(v as int), 8) + rest, 8) == (
            Ok::<nat, CodecError>(unsigned64(v as int)),
            8nat,
        ),
        signed64(unsigned64(v as int)) == v,
{
    reveal_with_fuel(pow256, 9);
    lemma_be_round_trip(unsigned64(v as int), 8);
    assert((be_bytes(unsigned64(v as int), 8) + rest).take(8) =~= be_bytes(
        unsigned64(v as int),
        8,
    ));
}

/// A frame starts with the number of the bytes that follow; these hold the packet's number and
/// then the payload.
pub proof fn packet_round_trip(id: i32, payload: Seq<u8>)
    requires
        payload.len() + MAX_VARINT_BYTES <= i32::MAX,
    ensures
        ({
            let frame = packet_bytes(id as int, payload);
            let (len, n) = varint_at(frame);
            let body = frame.skip(n as int);
            let (got, m) = varint_at(body);
            &&& len == Ok::<i32, CodecError>(body.len() as i32)
            &&& body.len() <= i32::MAX
            &&& got == Ok::<i32, CodecError>(id)
            &&& body.skip(m as int) == payload
        }),
{
    let head = varint_bytes(unsigned32(id as int));
    let inner = head + payload;
    varint_length(id);
    varint_round_trip(inner.len() as i32, inner);
    varint_round_trip(id, payload);
    let frame = packet_bytes(id as int, payload);
    let first = varint_bytes(unsigned32(inner.len() as int));
    assert(frame == first + inner);
    assert(frame.skip(first.len() as int) =~= inner);
    assert(inner.skip(head.len() as int) =~= payload);
}

/// Two bytes stand for a number with the higher one first; a VarInt starts with its lowest seven
/// bits, and the top bit says whether more follow.
pub proof fn bytes_have_their_order(u: nat)
    ensures
        be_bytes(u, 2) == seq![(u / 256 % 256) as u8, (u % 256) as u8],
        u < 128 ==> varint_bytes(u) == seq![u as u8],
        u >= 128 ==> varint_bytes(u)[0] == (u % 128) as u8 + 128 && varint_bytes(u).drop_first()
            == varint_bytes(u / 128),
{
    reveal_with_fuel(be_bytes, 3);
    assert(be_bytes(u, 2) =~= seq![(u / 256 % 256) as u8, (u % 256) as u8]);
    if u >= 128 {
        assert(varint_bytes(u).drop_first() =~= varint_bytes(u / 128));
    }
}

/// A server that reads a handshake finds the protocol number, the host, the port and the state that
/// comes next, in this order, and nothing else.
pub proof fn handshake_round_trip(protocol: i32, host: Seq<char>, port: u16, next: i32)
    requires
        encode_utf8(host).len() <= i32::MAX,
    ensures
        ({
            let all = handshake_payload(protocol as int, host, port as nat, next as int);
            let a = all.skip(varint_at(all).1 as int);
            let b = a.skip(string_at(a, i32::MAX as nat).1 as int);
            let c = b.skip(2);
            &&& varint_at(all).0 == Ok::<i32, CodecError>(protocol)
            &&& string_at(a, i32::MAX as nat).0 == Ok::<Seq<char>, CodecError>(host)
            &&& b.len() >= 2 && b[0] as nat * 256 + b[1] as nat == port
            &&& varint_at(c) == (Ok::<i32, CodecError>(next), c.len())
        }),
{
    let p = varint_bytes(unsigned32(protocol as int));
    let h = string_bytes(host);
    let two = be_bytes(port as nat, 2);
    let n = varint_bytes(unsigned32(next as int));
    let all = handshake_payload(protocol as int, host, port as nat, next as int);
    assert(all =~= p + (h + (two + n)));
    varint_round_trip(protocol, h + (two + n));
    assert(all.skip(p.len() as int) =~= h + (two + n));
    string_round_trip(host, two + n, i32::MAX as nat);
    assert((h + (two + n)).skip(h.len() as int) =~= two + n);
    bytes_have_their_order(port as nat);
    assert((two + n).skip(2) =~= n);
    varint_round_trip(next, Seq::empty());
    assert(n + Seq::<u8>::empty() =~= n);
}

} // verus!
