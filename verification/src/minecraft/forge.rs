//! The packed mod list of a Forge server (`forgeData.d`).
//!
//! Two layers are undone here. The outer one holds fifteen bits of a byte stream in each
//! character, the lowest bits first; the first two characters give the number of bytes. The inner
//! one is a byte layout: a flag, the number of mods, and of each mod its channel count and
//! `ignoreServerOnly` bit, its name, its version and its channels; then the channels that belong
//! to no mod.

use vstd::prelude::*;
use vstd::arithmetic::div_mod::{
    lemma_div_denominator, lemma_hoist_over_denominator, lemma_mod_multiples_vanish,
};
use vstd::arithmetic::power2::{
    lemma2_to64, lemma_pow2_adds, lemma_pow2_pos, lemma_pow2_strictly_increases, pow2,
};
use crate::minecraft::codec;
use crate::minecraft::text;

verus! {

/// The longest text of the layout, in bytes.
pub const MAX_TEXT: usize = 32767;

/// The most mods that a list may announce.
pub const MAX_MODS: usize = 8192;

/// The most channels that are read of one mod.
pub const MAX_MOD_CHANNELS: usize = 4096;

/// The most channels that are read after the mods.
pub const MAX_EXTRA_CHANNELS: usize = 8192;

/// The most bytes that a packed list may announce.
pub const MAX_BYTES: usize = 8388608;

/// A decoded mod list.
#[derive(Debug, Clone)]
pub struct ForgeMods {
    /// Name and version of each mod; the version is empty where the server does not send it.
    pub mods: Vec<(String, String)>,
    /// How many channels there are in all.
    pub channels: usize,
    /// Whether the server left mods out.
    pub truncated: bool,
}

/// What a [`ForgeMods`] holds.
pub struct ForgeModel {
    pub mods: Seq<(Seq<char>, Seq<char>)>,
    pub channels: nat,
    pub truncated: bool,
}

/// The characters of pairs of strings.
pub open spec fn pair_views(list: Seq<(String, String)>) -> Seq<(Seq<char>, Seq<char>)> {
    Seq::new(list.len(), |i: int| (list[i].0@, list[i].1@))
}

impl ForgeMods {
    /// What the list holds.
    pub open spec fn model(self) -> ForgeModel {
        ForgeModel {
            mods: pair_views(self.mods@),
            channels: self.channels as nat,
            truncated: self.truncated,
        }
    }
}

// ---- the byte layout ----

/// A text at the start of `s`, and what is left to read after the attempt.
#[verifier::opaque]
pub open spec fn text_from(s: Seq<u8>) -> (Option<Seq<char>>, Seq<u8>) {
    let (r, n) = codec::string_at(s, MAX_TEXT as nat);
    (r.ok(), s.skip(n as int))
}

/// A VarInt at the start of `s`, and what is left to read after the attempt.
#[verifier::opaque]
pub open spec fn number_from(s: Seq<u8>) -> (Option<i32>, Seq<u8>) {
    let (r, n) = codec::varint_at(s);
    (r.ok(), s.skip(n as int))
}

/// Whether a channel's version stands at the start of `s`, and what is left after the attempt.
pub open spec fn version_from(s: Seq<u8>, varint: bool) -> (bool, Seq<u8>) {
    if varint {
        let (v, t) = number_from(s);
        (v is Some, t)
    } else {
        let (v, t) = text_from(s);
        (v is Some, t)
    }
}

/// Whether a channel (name, version, required flag) stands at the start of `s`, and what is left
/// after the attempt.
pub open spec fn channel_from(s: Seq<u8>, varint: bool) -> (bool, Seq<u8>) {
    let (name, t) = text_from(s);
    let (version, u) = version_from(t, varint);
    if name is None {
        (false, t)
    } else if !version {
        (false, u)
    } else if u.len() == 0 {
        (false, u)
    } else {
        (true, u.drop_first())
    }
}

/// How many of `n` channels can be read from `s`, whether that is all of them, and what is left.
pub open spec fn channels_from(s: Seq<u8>, n: nat, varint: bool) -> (nat, bool, Seq<u8>)
    decreases n,
{
    if n == 0 {
        (0, true, s)
    } else {
        let (k, all, t) = channels_from(s, (n - 1) as nat, varint);
        if all {
            let (ok, u) = channel_from(t, varint);
            (if ok { k + 1 } else { k }, ok, u)
        } else {
            (k, false, t)
        }
    }
}

/// The number of channels that a mod's flag announces, as far as they are read.
pub open spec fn announced(flag: int, most: usize) -> nat {
    if flag <= 0 {
        0
    } else if flag > most {
        most as nat
    } else {
        flag as nat
    }
}

/// The mod at the start of `s`, how many of its channels can be read, whether everything could,
/// and what is left.
pub open spec fn mod_from(s: Seq<u8>, varint: bool) -> (
    Option<(Seq<char>, Seq<char>)>,
    nat,
    bool,
    Seq<u8>,
) {
    let (flag, t) = number_from(s);
    let (name, u) = text_from(t);
    let versionless = flag->0 % 2 != 0;
    let (version, v) = if versionless {
        (Some(Seq::<char>::empty()), u)
    } else {
        text_from(u)
    };
    if flag is None {
        (None, 0, false, t)
    } else if name is None {
        (None, 0, false, u)
    } else if version is None {
        (None, 0, false, v)
    } else {
        let (k, all, w) = channels_from(v, announced(flag->0 as int / 2, MAX_MOD_CHANNELS), varint);
        (Some((name->0, version->0)), k, all, w)
    }
}

/// The mods among the first `n` at the start of `s` that can be read, how many channels they have,
/// whether everything could be read, and what is left.
pub open spec fn mods_from(s: Seq<u8>, n: nat, varint: bool) -> (
    Seq<(Seq<char>, Seq<char>)>,
    nat,
    bool,
    Seq<u8>,
)
    decreases n,
{
    if n == 0 {
        (Seq::empty(), 0, true, s)
    } else {
        let (found, k, all, t) = mods_from(s, (n - 1) as nat, varint);
        if all {
            let (m, j, ok, u) = mod_from(t, varint);
            (if m is Some { found.push(m->0) } else { found }, k + j, ok, u)
        } else {
            (found, k, false, t)
        }
    }
}

/// The bytes end before a VarInt at their start does.
pub open spec fn number_cut_off(s: Seq<u8>) -> bool {
    codec::varint_at(s).0 == Err::<i32, codec::CodecError>(codec::CodecError::OutOfBounds)
}

/// How many channels can be read after the mods, whether that is all of them, and what is left.
/// Where the bytes end before the number of these channels does, there are none.
pub open spec fn extra_from(s: Seq<u8>, varint: bool) -> (nat, bool, Seq<u8>) {
    let (n, t) = number_from(s);
    if n is None {
        (0, number_cut_off(s), t)
    } else {
        channels_from(t, announced(n->0 as int, MAX_EXTRA_CHANNELS), varint)
    }
}

/// The list that the bytes hold where channel versions are of the given kind, and whether it was
/// read without an error and up to the last byte. It is no error that the bytes end where the number
/// of the channels after the mods is due.
pub open spec fn layout_of(bytes: Seq<u8>, varint: bool) -> Option<(ForgeModel, bool)> {
    if bytes.len() < 3 {
        None
    } else {
        let count = codec::be_value(bytes.subrange(1, 3));
        if count > MAX_MODS {
            None
        } else {
            let (mods, k, clean, t) = mods_from(bytes.skip(3), count, varint);
            let (j, all, u) = if clean {
                extra_from(t, varint)
            } else {
                (0, false, t)
            };
            Some(
                (
                    ForgeModel { mods, channels: k + j, truncated: bytes[0] != 0 },
                    all && u.len() == 0,
                ),
            )
        }
    }
}

/// Which of two readings counts: the one that used up its bytes, the first before the second;
/// else the one with more mods, again the first before the second.
pub open spec fn better(
    a: Option<(ForgeModel, bool)>,
    b: Option<(ForgeModel, bool)>,
) -> Option<ForgeModel> {
    match (a, b) {
        (None, None) => None,
        (None, Some(y)) => Some(y.0),
        (Some(x), None) => Some(x.0),
        (Some(x), Some(y)) => if x.1 {
            Some(x.0)
        } else if y.1 {
            Some(y.0)
        } else if x.0.mods.len() >= y.0.mods.len() {
            Some(x.0)
        } else {
            Some(y.0)
        },
    }
}

/// The list that the bytes hold.
pub open spec fn list_of(bytes: Seq<u8>) -> Option<ForgeModel> {
    better(layout_of(bytes, true), layout_of(bytes, false))
}

/// Reads a text.
fn read_text(r: &mut codec::Reader) -> (res: Option<String>)
    requires
        old(r).wf(),
    ensures
        final(r).wf(),
        (text::opt_view(res), final(r).rest()) == text_from(old(r).rest()),
{
    proof {
        reveal(text_from);
    }
    match r.read_string(MAX_TEXT) {
        Ok(s) => Some(s),
        Err(_) => None,
    }
}

/// Reads a VarInt.
fn read_number(r: &mut codec::Reader) -> (res: Option<i32>)
    requires
        old(r).wf(),
    ensures
        final(r).wf(),
        (res, final(r).rest()) == number_from(old(r).rest()),
{
    proof {
        reveal(number_from);
    }
    match r.read_varint() {
        Ok(n) => Some(n),
        Err(_) => None,
    }
}

/// Reads the version of a channel: a VarInt in newer lists, a text in older ones.
fn read_chan_version(r: &mut codec::Reader, varint: bool) -> (ok: bool)
    requires
        old(r).wf(),
    ensures
        final(r).wf(),
        (ok, final(r).rest()) == version_from(old(r).rest(), varint),
{
    if varint {
        read_number(r).is_some()
    } else {
        read_text(r).is_some()
    }
}

/// Reads one channel.
fn read_channel(r: &mut codec::Reader, varint: bool) -> (ok: bool)
    requires
        old(r).wf(),
    ensures
        final(r).wf(),
        (ok, final(r).rest()) == channel_from(old(r).rest(), varint),
{
    if read_text(r).is_none() {
        return false;
    }
    if !read_chan_version(r, varint) {
        return false;
    }
    r.read_u8().is_ok()
}

/// Reads up to `n` channels; gives how many could be read and whether that is all of them.
fn read_channels(r: &mut codec::Reader, n: usize, varint: bool) -> (res: (usize, bool))
    requires
        old(r).wf(),
    ensures
        final(r).wf(),
        res.0 <= n,
        (res.0 as nat, res.1, final(r).rest()) == channels_from(old(r).rest(), n as nat, varint),
{
    let ghost start = r.rest();
    let mut i: usize = 0;
    let mut all = true;
    let mut read: usize = 0;
    while i < n && all
        invariant
            r.wf(),
            i <= n,
            read <= i,
            (read as nat, all, r.rest()) == channels_from(start, i as nat, varint),
        decreases n - i,
    {
        all = read_channel(r, varint);
        if all {
            read += 1;
        }
        i += 1;
    }
    proof {
        lemma_channels_stop(start, i as nat, n as nat, varint);
    }
    (read, all)
}

proof fn lemma_channels_stop(s: Seq<u8>, i: nat, n: nat, varint: bool)
    requires
        i <= n,
        i == n || !channels_from(s, i, varint).1,
    ensures
        channels_from(s, n, varint) == channels_from(s, i, varint),
    decreases n,
{
    if i < n {
        lemma_channels_stop(s, i, (n - 1) as nat, varint);
    }
}

proof fn lemma_mods_stop(s: Seq<u8>, i: nat, n: nat, varint: bool)
    requires
        i <= n,
        i == n || !mods_from(s, i, varint).2,
    ensures
        mods_from(s, n, varint) == mods_from(s, i, varint),
    decreases n,
{
    if i < n {
        lemma_mods_stop(s, i, (n - 1) as nat, varint);
    }
}

/// Reads one mod with its channels; gives the mod, how many of its channels could be read and
/// whether everything could.
fn read_mod(r: &mut codec::Reader, varint: bool) -> (res: (Option<(String, String)>, usize, bool))
    requires
        old(r).wf(),
    ensures
        final(r).wf(),
        res.1 <= MAX_MOD_CHANNELS,
        (
            match res.0 {
                Some(p) => Some((p.0@, p.1@)),
                None => None,
            },
            res.1 as nat,
            res.2,
            final(r).rest(),
        ) == mod_from(old(r).rest(), varint),
{
    let flag: i32 = match read_number(r) {
        Some(n) => n,
        None => {
            return (None, 0, false);
        },
    };
    let versionless = if flag >= 0 {
        flag % 2 != 0
    } else {
        (flag as i64 + 0x1_0000_0000) % 2 != 0
    };
    let chan: usize = if flag <= 0 {
        0
    } else if flag / 2 > MAX_MOD_CHANNELS as i32 {
        MAX_MOD_CHANNELS
    } else {
        (flag / 2) as usize
    };
    let name = match read_text(r) {
        Some(s) => s,
        None => {
            return (None, 0, false);
        },
    };
    let version = if versionless {
        String::new()
    } else {
        match read_text(r) {
            Some(s) => s,
            None => {
                return (None, 0, false);
            },
        }
    };
    let (read, all) = read_channels(r, chan, varint);
    (Some((name, version)), read, all)
}

/// Reads the channels after the mods; gives how many could be read and whether that is all of them.
fn read_extra(r: &mut codec::Reader, varint: bool) -> (res: (usize, bool))
    requires
        old(r).wf(),
    ensures
        final(r).wf(),
        res.0 <= MAX_EXTRA_CHANNELS,
        (res.0 as nat, res.1, final(r).rest()) == extra_from(old(r).rest(), varint),
{
    proof {
        reveal(number_from);
    }
    match r.read_varint() {
        Ok(extra) => {
            let n: usize = if extra <= 0 {
                0
            } else if extra > MAX_EXTRA_CHANNELS as i32 {
                MAX_EXTRA_CHANNELS
            } else {
                extra as usize
            };
            read_channels(r, n, varint)
        },
        Err(codec::CodecError::OutOfBounds) => (0, true),
        Err(_) => (0, false),
    }
}

/// Reads the list for one kind of channel version. A reading error ends the list and keeps what
/// was read before it. The flag says whether there was no error and no byte is left; that the bytes
/// end where the number of the channels after the mods is due is no error.
pub fn parse_with(bytes: &[u8], chan_ver_varint: bool) -> (r: Option<(ForgeMods, bool)>)
    ensures
        match r {
            Some(x) => layout_of(bytes@, chan_ver_varint) == Some((x.0.model(), x.1)),
            None => layout_of(bytes@, chan_ver_varint) is None,
        },
{
    let mut r = codec::Reader::new(bytes);
    let truncated = match r.read_u8() {
        Ok(b) => b != 0,
        Err(_) => {
            return None;
        },
    };
    let ghost after_flag = r.rest();
    let mod_count: usize = match r.read_i16() {
        Ok(n) => {
            let m: i32 = if n < 0 {
                n as i32 + 0x1_0000
            } else {
                n as i32
            };
            m as usize
        },
        Err(_) => {
            return None;
        },
    };
    proof {
        assert(after_flag.take(2) =~= bytes@.subrange(1, 3));
        assert(r.rest() =~= bytes@.skip(3));
        lemma_be_value_two(bytes@.subrange(1, 3));
    }
    if mod_count > MAX_MODS {
        return None;
    }
    let mut mods: Vec<(String, String)> = Vec::new();
    let mut channels: usize = 0;
    let mut clean = true;
    let mut i: usize = 0;
    let ghost start = r.rest();
    assert(pair_views(mods@) =~= Seq::empty());
    while i < mod_count && clean
        invariant
            r.wf(),
            i <= mod_count <= MAX_MODS,
            channels <= i * MAX_MOD_CHANNELS,
            (pair_views(mods@), channels as nat, clean, r.rest()) == mods_from(
                start,
                i as nat,
                chan_ver_varint,
            ),
        decreases mod_count - i,
    {
        let ghost before = pair_views(mods@);
        let (found, read, all) = read_mod(&mut r, chan_ver_varint);
        if let Some(pair) = found {
            mods.push(pair);
            assert(pair_views(mods@) =~= before.push((pair.0@, pair.1@)));
        }
        channels += read;
        clean = all;
        i += 1;
    }
    proof {
        lemma_mods_stop(start, i as nat, mod_count as nat, chan_ver_varint);
    }
    if clean {
        let (read, all) = read_extra(&mut r, chan_ver_varint);
        channels += read;
        clean = all;
    }
    let full = clean && r.remaining() == 0;
    Some((ForgeMods { mods, channels, truncated }, full))
}

proof fn lemma_be_value_two(s: Seq<u8>)
    requires
        s.len() == 2,
    ensures
        codec::be_value(s) == s[0] as nat * 256 + s[1] as nat,
{
    reveal_with_fuel(codec::be_value, 3);
    assert(s.drop_last().drop_last() =~= Seq::<u8>::empty());
}

// ---- the characters ----

/// The fifteen bits that a character carries.
pub open spec fn code(c: char) -> nat {
    (c as u32 % 0x8000) as nat
}

/// The number whose bits the characters carry, fifteen each, the lowest first.
pub open spec fn bits_value(s: Seq<char>) -> nat
    decreases s.len(),
{
    if s.len() == 0 {
        0
    } else {
        bits_value(s.drop_last()) + code(s.last()) * pow2((15 * (s.len() - 1)) as nat)
    }
}

/// The byte `k` of a number, counted from the lowest.
pub open spec fn byte_at(v: nat, k: nat) -> nat {
    (v / pow2(8 * k)) % 256
}

/// The number of bytes that the first two characters announce.
pub open spec fn announced_bytes(s: Seq<char>) -> nat {
    code(s[0]) + code(s[1]) * 0x8000
}

/// The bytes that the characters carry: as many as announced, or fewer where the characters run
/// out.
pub open spec fn unpacked(s: Seq<char>) -> Option<Seq<u8>> {
    if s.len() < 2 || announced_bytes(s) > MAX_BYTES {
        None
    } else {
        let held = 15 * (s.len() - 2) / 8;
        let n = if announced_bytes(s) < held {
            announced_bytes(s)
        } else {
            held as nat
        };
        Some(Seq::new(n, |k: int| byte_at(bits_value(s.skip(2)), k as nat) as u8))
    }
}

/// The mod list that the characters carry.
pub open spec fn decoded(s: Seq<char>) -> Option<ForgeModel> {
    match unpacked(s) {
        Some(bytes) => list_of(bytes),
        None => None,
    }
}

/// Adding bits above the byte `k` leaves it alone.
proof fn lemma_byte_kept(v: nat, c: nat, e: nat, k: nat)
    requires
        8 * (k + 1) <= e,
    ensures
        byte_at(v + c * pow2(e), k) == byte_at(v, k),
{
    let d = pow2(8 * k);
    let m = pow2((e - 8 * (k + 1)) as nat);
    lemma_pow2_pos(8 * k);
    lemma2_to64();
    lemma_pow2_adds(8 * k, 8);
    lemma_pow2_adds(8 * k + 8, (e - 8 * (k + 1)) as nat);
    assert(pow2(e) == d * 256 * m);
    assert(c * pow2(e) == (256 * (c * m)) * d) by (nonlinear_arith)
        requires
            pow2(e) == d * 256 * m,
    ;
    lemma_hoist_over_denominator(v as int, 256 * (c * m) as int, d);
    lemma_mod_multiples_vanish((c * m) as int, v as int / d as int, 256);
}

/// The byte `k` depends only on the characters that reach it.
proof fn lemma_byte_of_prefix(s: Seq<char>, i: nat, k: nat)
    requires
        i <= s.len(),
        8 * (k + 1) <= 15 * i,
    ensures
        byte_at(bits_value(s.take(i as int)), k) == byte_at(bits_value(s), k),
    decreases s.len(),
{
    if i == s.len() {
        assert(s.take(i as int) =~= s);
    } else {
        lemma_byte_of_prefix(s.drop_last(), i, k);
        assert(s.drop_last().take(i as int) =~= s.take(i as int));
        lemma_byte_kept(
            bits_value(s.drop_last()),
            code(s.last()),
            (15 * (s.len() - 1)) as nat,
            k,
        );
    }
}

/// Taking fifteen more bits into the buffer.
proof fn lemma_refill(v: nat, c: nat, i: nat, n: nat, bits: nat)
    requires
        8 * n + bits == 15 * i,
    ensures
        (v + c * pow2(15 * i)) / pow2(8 * n) == v / pow2(8 * n) + c * pow2(bits),
{
    lemma_pow2_pos(8 * n);
    lemma_pow2_adds(8 * n, bits);
    let d = pow2(8 * n);
    let u = pow2(bits);
    assert(c * (d * u) == (c * u) * d) by (nonlinear_arith);
    lemma_hoist_over_denominator(v as int, (c * u) as int, d);
}

/// Taking a byte out of the buffer.
proof fn lemma_drain(v: nat, n: nat)
    ensures
        (v / pow2(8 * n)) / 256 == v / pow2(8 * (n + 1)),
{
    lemma_pow2_pos(8 * n);
    lemma2_to64();
    lemma_pow2_adds(8 * n, 8);
    lemma_div_denominator(v as int, pow2(8 * n) as int, 256);
}

/// Undoes the packing of fifteen bits per character.
pub fn unpack15(d: &str) -> (r: Option<Vec<u8>>)
    ensures
        match r {
            Some(b) => unpacked(d@) == Some(b@),
            None => unpacked(d@) is None,
        },
{
    let chars = text::chars_of(d);
    if chars.len() < 2 {
        return None;
    }
    let byte_len: usize = (chars[0] as u32 % 0x8000) as usize + (chars[1] as u32 % 0x8000) as usize
        * 0x8000;
    if byte_len > MAX_BYTES {
        return None;
    }
    let mut out: Vec<u8> = Vec::new();
    let mut buffer: u64 = 0;
    let mut unit: u64 = 1;
    let ghost mut bits: nat = 0;
    let ghost payload = d@.skip(2);
    let mut i: usize = 2;
    proof {
        lemma2_to64();
        assert(payload.take(0) =~= Seq::<char>::empty());
    }
    while i < chars.len() && out.len() < byte_len
        invariant
            chars@ == d@,
            payload == d@.skip(2),
            byte_len <= MAX_BYTES,
            2 <= i <= chars@.len(),
            out@.len() <= byte_len,
            8 * out@.len() + bits == 15 * (i - 2),
            unit == pow2(bits),
            bits <= 22,
            out@.len() < byte_len ==> bits < 8,
            buffer < unit,
            buffer == bits_value(payload.take(i - 2)) / pow2(8 * out@.len()),
            forall|k: int|
                0 <= k < out@.len() ==> out@[k] == byte_at(
                    bits_value(payload.take(i - 2)),
                    k as nat,
                ),
        decreases chars@.len() - i,
    {
        let ghost v0 = bits_value(payload.take(i - 2));
        let ghost v = bits_value(payload.take(i - 1));
        let c: u64 = (chars[i] as u32 % 0x8000) as u64;
        proof {
            assert(payload.take(i - 1).drop_last() =~= payload.take(i - 2));
            assert(payload.take(i - 1).last() == chars@[i as int]);
            lemma_refill(v0, c as nat, (i - 2) as nat, out@.len(), bits);
            assert forall|k: int| 0 <= k < out@.len() implies out@[k] == byte_at(v, k as nat) by {
                lemma_byte_kept(v0, c as nat, (15 * (i - 2)) as nat, k as nat);
            }
            lemma2_to64();
            lemma_pow2_adds(bits, 15);
            if bits < 7 {
                lemma_pow2_strictly_increases(bits, 7);
            }
            assert(0 <= c * unit <= 0x7FFF * unit) by (nonlinear_arith)
                requires
                    0 <= c <= 0x7FFF,
                    0 <= unit,
            ;
        }
        buffer = buffer + c * unit;
        unit = unit * 0x8000;
        proof {
            bits = bits + 15;
        }
        while unit >= 256 && out.len() < byte_len
            invariant
                2 <= i < chars@.len(),
                out@.len() <= byte_len,
                8 * out@.len() + bits == 15 * (i - 1),
                unit == pow2(bits),
                bits <= 22,
                buffer < unit,
                buffer == v / pow2(8 * out@.len()),
                forall|k: int| 0 <= k < out@.len() ==> out@[k] == byte_at(v, k as nat),
            decreases bits,
        {
            proof {
                lemma2_to64();
                if bits < 8 {
                    lemma_pow2_strictly_increases(bits, 8);
                }
                lemma_pow2_adds((bits - 8) as nat, 8);
                lemma_drain(v, out@.len());
            }
            out.push((buffer % 256) as u8);
            buffer = buffer / 256;
            unit = unit / 256;
            proof {
                bits = (bits - 8) as nat;
            }
        }
        proof {
            lemma2_to64();
            if bits >= 8 && bits > 8 {
                lemma_pow2_strictly_increases(8, bits);
            }
        }
        i += 1;
    }
    proof {
        assert forall|k: int| 0 <= k < out@.len() implies out@[k] == byte_at(
            bits_value(payload),
            k as nat,
        ) by {
            lemma_byte_of_prefix(payload, (i - 2) as nat, k as nat);
        }
        assert(out@ =~= unpacked(d@)->0);
    }
    Some(out)
}

/// Reads the byte layout. The two kinds of channel version are both tried.
pub fn parse_buf(bytes: &[u8]) -> (r: Option<ForgeMods>)
    ensures
        match r {
            Some(m) => list_of(bytes@) == Some(m.model()),
            None => list_of(bytes@) is None,
        },
{
    let as_varint = parse_with(bytes, true);
    let as_text = parse_with(bytes, false);
    match (as_varint, as_text) {
        (Some((a, a_full)), Some((b, b_full))) => {
            if a_full {
                Some(a)
            } else if b_full {
                Some(b)
            } else if a.mods.len() >= b.mods.len() {
                Some(a)
            } else {
                Some(b)
            }
        },
        (Some((a, _)), None) => Some(a),
        (None, Some((b, _))) => Some(b),
        (None, None) => None,
    }
}

/// Decodes `forgeData.d`.
pub fn decode_forge_d(d: &str) -> (r: Option<ForgeMods>)
    ensures
        match r {
            Some(m) => decoded(d@) == Some(m.model()),
            None => decoded(d@) is None,
        },
{
    match unpack15(d) {
        Some(bytes) => parse_buf(bytes.as_slice()),
        None => None,
    }
}

// ---- what the decoder undoes ----

/// The number that the bytes stand for, the lowest first.
pub open spec fn le_value(b: Seq<u8>) -> nat
    decreases b.len(),
{
    if b.len() == 0 {
        0
    } else {
        le_value(b.drop_last()) + b.last() as nat * pow2((8 * (b.len() - 1)) as nat)
    }
}

/// Bytes packed fifteen bits per character behind their number, as a server sends them.
pub open spec fn packed(b: Seq<u8>) -> Seq<char> {
    seq![((b.len() % 0x8000) as u32) as char, ((b.len() / 0x8000 % 0x8000) as u32) as char]
        + packed_bits(le_value(b), ((8 * b.len() + 14) / 15) as nat)
}

/// The lowest `15 * m` bits of `v`, fifteen per character.
pub open spec fn packed_bits(v: nat, m: nat) -> Seq<char> {
    Seq::new(m, |i: int| ((v / pow2((15 * i) as nat) % 0x8000) as u32) as char)
}

proof fn lemma_packed_bits(v: nat, m: nat)
    ensures
        bits_value(packed_bits(v, m)) == v % pow2(15 * m),
    decreases m,
{
    lemma2_to64();
    lemma_pow2_pos(15 * m);
    if m > 0 {
        let p = pow2((15 * (m - 1)) as nat);
        lemma_pow2_pos((15 * (m - 1)) as nat);
        lemma_packed_bits(v, (m - 1) as nat);
        let s = packed_bits(v, m);
        assert(s.drop_last() =~= packed_bits(v, (m - 1) as nat));
        let low = v / p % 0x8000;
        assert(code(s.last()) == low);
        lemma_pow2_adds((15 * (m - 1)) as nat, 15);
        vstd::arithmetic::div_mod::lemma_breakdown(v as int, p as int, 0x8000);
        assert(p * low == low * p) by (nonlinear_arith);
    }
}

proof fn lemma_le_value(b: Seq<u8>)
    ensures
        le_value(b) < pow2(8 * b.len()),
        forall|k: int| 0 <= k < b.len() ==> byte_at(le_value(b), k as nat) == #[trigger] b[k],
    decreases b.len(),
{
    lemma2_to64();
    if b.len() > 0 {
        let n = (b.len() - 1) as nat;
        let p = pow2(8 * n);
        let v = le_value(b.drop_last());
        let c = b.last() as nat;
        lemma_le_value(b.drop_last());
        lemma_pow2_pos(8 * n);
        lemma_pow2_adds(8 * n, 8);
        assert(v + c * p < p * 256) by (nonlinear_arith)
            requires
                v < p,
                c <= 255,
        ;
        assert forall|k: int| 0 <= k < b.len() implies byte_at(le_value(b), k as nat)
            == #[trigger] b[k] by {
            if k < n {
                lemma_byte_kept(v, c, 8 * n, k as nat);
                assert(b.drop_last()[k] == b[k]);
            } else {
                lemma_hoist_over_denominator(v as int, c as int, p);
                vstd::arithmetic::div_mod::lemma_basic_div(v as int, p as int);
            }
        }
    }
}

/// Unpacking gives back the bytes that were packed.
pub proof fn packing_round_trip(b: Seq<u8>)
    requires
        b.len() <= MAX_BYTES,
    ensures
        unpacked(packed(b)) == Some(b),
{
    let s = packed(b);
    let v = le_value(b);
    let m = ((8 * b.len() + 14) / 15) as nat;
    assert(s.skip(2) =~= packed_bits(v, m));
    lemma_packed_bits(v, m);
    lemma_le_value(b);
    if 8 * b.len() < 15 * m {
        lemma_pow2_strictly_increases(8 * b.len(), 15 * m);
    }
    vstd::arithmetic::div_mod::lemma_small_mod(v, pow2(15 * m));
    assert(announced_bytes(s) == b.len());
    assert(unpacked(s)->0 =~= b);
}

/// The version of a channel.
pub enum ChannelVersion {
    Number(i32),
    Text(Seq<char>),
}

/// A channel as the server lists it.
pub struct Channel {
    pub name: Seq<char>,
    pub version: ChannelVersion,
    pub required: u8,
}

/// A mod as the server lists it. Where the version is left out, `version` is `None`.
pub struct Entry {
    pub name: Seq<char>,
    pub version: Option<Seq<char>>,
    pub channels: Seq<Channel>,
}

/// The text can stand in the layout.
pub open spec fn text_fits(s: Seq<char>) -> bool {
    vstd::utf8::encode_utf8(s).len() <= MAX_TEXT
}

/// The channel can stand in a list whose channel versions are of the given kind.
pub open spec fn channel_fits(c: Channel, varint: bool) -> bool {
    text_fits(c.name) && match c.version {
        ChannelVersion::Number(_) => varint,
        ChannelVersion::Text(t) => !varint && text_fits(t),
    }
}

/// All channels can stand in such a list.
pub open spec fn channels_fit(list: Seq<Channel>, most: usize, varint: bool) -> bool {
    list.len() <= most && forall|i: int|
        0 <= i < list.len() ==> channel_fits(#[trigger] list[i], varint)
}

/// The mod can stand in such a list.
pub open spec fn entry_fits(e: Entry, varint: bool) -> bool {
    text_fits(e.name) && (e.version matches Some(v) ==> text_fits(v)) && channels_fit(
        e.channels,
        MAX_MOD_CHANNELS,
        varint,
    )
}

/// A channel as bytes.
pub open spec fn channel_bytes(c: Channel) -> Seq<u8> {
    codec::string_bytes(c.name) + (match c.version {
        ChannelVersion::Number(n) => codec::varint_bytes(codec::unsigned32(n as int)),
        ChannelVersion::Text(t) => codec::string_bytes(t),
    }) + seq![c.required]
}

/// Channels as bytes.
pub open spec fn channels_bytes(list: Seq<Channel>) -> Seq<u8>
    decreases list.len(),
{
    if list.len() == 0 {
        Seq::empty()
    } else {
        channels_bytes(list.drop_last()) + channel_bytes(list.last())
    }
}

/// The number in front of a mod: twice its channels, plus one where the version is left out.
pub open spec fn entry_flag(e: Entry) -> int {
    2 * e.channels.len() + (if e.version is None {
        1int
    } else {
        0
    })
}

/// A mod as bytes.
pub open spec fn entry_bytes(e: Entry) -> Seq<u8> {
    codec::varint_bytes(codec::unsigned32(entry_flag(e))) + codec::string_bytes(e.name) + (
    match e.version {
        Some(v) => codec::string_bytes(v),
        None => Seq::empty(),
    }) + channels_bytes(e.channels)
}

/// Mods as bytes.
pub open spec fn entries_bytes(list: Seq<Entry>) -> Seq<u8>
    decreases list.len(),
{
    if list.len() == 0 {
        Seq::empty()
    } else {
        entries_bytes(list.drop_last()) + entry_bytes(list.last())
    }
}

/// How many channels the mods have.
pub open spec fn entries_channels(list: Seq<Entry>) -> nat
    decreases list.len(),
{
    if list.len() == 0 {
        0
    } else {
        entries_channels(list.drop_last()) + list.last().channels.len()
    }
}

/// Name and version of a mod, the version empty where it is left out.
pub open spec fn entry_pair(e: Entry) -> (Seq<char>, Seq<char>) {
    (
        e.name,
        match e.version {
            Some(v) => v,
            None => Seq::empty(),
        },
    )
}

/// Name and version of each mod.
pub open spec fn entry_pairs(list: Seq<Entry>) -> Seq<(Seq<char>, Seq<char>)> {
    Seq::new(list.len(), |i: int| entry_pair(list[i]))
}

/// A whole list as bytes.
pub open spec fn list_bytes(truncated: bool, entries: Seq<Entry>, extra: Seq<Channel>) -> Seq<u8> {
    seq![if truncated { 1u8 } else { 0u8 }] + codec::be_bytes(entries.len(), 2) + entries_bytes(
        entries,
    ) + codec::varint_bytes(codec::unsigned32(extra.len() as int)) + channels_bytes(extra)
}

/// What a whole list says.
pub open spec fn list_model(truncated: bool, entries: Seq<Entry>, extra: Seq<Channel>) -> ForgeModel {
    ForgeModel {
        mods: entry_pairs(entries),
        channels: entries_channels(entries) + extra.len(),
        truncated,
    }
}

proof fn lemma_text_from(s: Seq<char>, rest: Seq<u8>)
    requires
        text_fits(s),
    ensures
        text_from(codec::string_bytes(s) + rest) == (Some(s), rest),
{
    reveal(text_from);
    codec::string_round_trip(s, rest, MAX_TEXT as nat);
    assert((codec::string_bytes(s) + rest).skip(codec::string_bytes(s).len() as int) =~= rest);
}

proof fn lemma_number_from(n: i32, rest: Seq<u8>)
    ensures
        number_from(codec::varint_bytes(codec::unsigned32(n as int)) + rest) == (Some(n), rest),
{
    let b = codec::varint_bytes(codec::unsigned32(n as int));
    reveal(number_from);
    codec::varint_round_trip(n, rest);
    assert((b + rest).skip(b.len() as int) =~= rest);
}

proof fn lemma_channel_from(c: Channel, rest: Seq<u8>, varint: bool)
    requires
        channel_fits(c, varint),
    ensures
        channel_from(channel_bytes(c) + rest, varint) == (true, rest),
{
    let last = seq![c.required] + rest;
    let version = match c.version {
        ChannelVersion::Number(n) => codec::varint_bytes(codec::unsigned32(n as int)),
        ChannelVersion::Text(t) => codec::string_bytes(t),
    };
    assert(channel_bytes(c) + rest =~= codec::string_bytes(c.name) + (version + last));
    lemma_text_from(c.name, version + last);
    match c.version {
        ChannelVersion::Number(n) => lemma_number_from(n, last),
        ChannelVersion::Text(t) => lemma_text_from(t, last),
    }
    assert(last.drop_first() =~= rest);
}

proof fn lemma_channels_from(list: Seq<Channel>, rest: Seq<u8>, most: usize, varint: bool)
    requires
        channels_fit(list, most, varint),
    ensures
        channels_from(channels_bytes(list) + rest, list.len(), varint) == (list.len(), true, rest),
    decreases list.len(),
{
    if list.len() == 0 {
        assert(channels_bytes(list) + rest =~= rest);
    } else {
        let c = list.last();
        assert(channel_fits(list[list.len() - 1], varint));
        assert forall|i: int| 0 <= i < list.drop_last().len() implies channel_fits(
            #[trigger] list.drop_last()[i],
            varint,
        ) by {
            assert(list.drop_last()[i] == list[i]);
        }
        lemma_channels_from(list.drop_last(), channel_bytes(c) + rest, most, varint);
        assert(channels_bytes(list) + rest =~= channels_bytes(list.drop_last()) + (channel_bytes(c)
            + rest));
        lemma_channel_from(c, rest, varint);
    }
}

proof fn lemma_mod_from(e: Entry, rest: Seq<u8>, varint: bool)
    requires
        entry_fits(e, varint),
    ensures
        mod_from(entry_bytes(e) + rest, varint) == (
            Some(entry_pair(e)),
            e.channels.len(),
            true,
            rest,
        ),
{
    let flag = entry_flag(e) as i32;
    let head = codec::varint_bytes(codec::unsigned32(flag as int));
    let version = match e.version {
        Some(v) => codec::string_bytes(v),
        None => Seq::empty(),
    };
    let tail = channels_bytes(e.channels) + rest;
    let named = codec::string_bytes(e.name) + (version + tail);
    lemma_five(head, codec::string_bytes(e.name), version, channels_bytes(e.channels), rest);
    assert(entry_bytes(e) + rest == head + named);
    lemma_number_from(flag, named);
    lemma_text_from(e.name, version + tail);
    if e.version is Some {
        lemma_text_from(e.version->0, tail);
    } else {
        assert(version + tail =~= tail);
    }
    lemma_channels_from(e.channels, rest, MAX_MOD_CHANNELS, varint);
    lemma_mod_parts(
        head + named,
        flag,
        named,
        version + tail,
        tail,
        entry_pair(e),
        e.channels.len(),
        rest,
        varint,
    );
}

/// A mod whose parts stand one after the other.
proof fn lemma_mod_parts(
    s: Seq<u8>,
    flag: i32,
    t: Seq<u8>,
    u: Seq<u8>,
    v: Seq<u8>,
    pair: (Seq<char>, Seq<char>),
    k: nat,
    w: Seq<u8>,
    varint: bool,
)
    requires
        number_from(s) == (Some(flag), t),
        text_from(t) == (Some(pair.0), u),
        if flag % 2 != 0 {
            pair.1 == Seq::<char>::empty() && v == u
        } else {
            text_from(u) == (Some(pair.1), v)
        },
        channels_from(v, announced(flag as int / 2, MAX_MOD_CHANNELS), varint) == (k, true, w),
    ensures
        mod_from(s, varint) == (Some(pair), k, true, w),
{
}

proof fn lemma_five(a: Seq<u8>, b: Seq<u8>, c: Seq<u8>, d: Seq<u8>, e: Seq<u8>)
    ensures
        a + b + c + d + e == a + (b + (c + (d + e))),
{
    assert(a + b + c + d + e =~= a + (b + (c + (d + e))));
}

proof fn lemma_mods_step(s: Seq<u8>, n: nat, varint: bool)
    requires
        n > 0,
        mods_from(s, (n - 1) as nat, varint).2,
        mod_from(mods_from(s, (n - 1) as nat, varint).3, varint).0 is Some,
    ensures
        ({
            let (found, k, all, t) = mods_from(s, (n - 1) as nat, varint);
            let (m, j, ok, u) = mod_from(t, varint);
            mods_from(s, n, varint) == (found.push(m->0), k + j, ok, u)
        }),
{
}

proof fn lemma_mods_from(list: Seq<Entry>, rest: Seq<u8>, varint: bool)
    requires
        forall|i: int| 0 <= i < list.len() ==> entry_fits(#[trigger] list[i], varint),
    ensures
        mods_from(entries_bytes(list) + rest, list.len(), varint) == (
            entry_pairs(list),
            entries_channels(list),
            true,
            rest,
        ),
    decreases list.len(),
{
    if list.len() == 0 {
        assert(entries_bytes(list) + rest =~= rest);
        assert(entry_pairs(list) =~= Seq::empty());
    } else {
        let e = list.last();
        let before = list.drop_last();
        assert(entry_fits(list[list.len() - 1], varint));
        assert forall|i: int| 0 <= i < before.len() implies entry_fits(
            #[trigger] before[i],
            varint,
        ) by {
            assert(before[i] == list[i]);
        }
        lemma_mods_from(before, entry_bytes(e) + rest, varint);
        assert(entries_bytes(list) + rest =~= entries_bytes(before) + (entry_bytes(e) + rest));
        lemma_mod_from(e, rest, varint);
        lemma_mods_step(entries_bytes(list) + rest, list.len(), varint);
        assert(entry_pairs(before).push(entry_pair(e)) =~= entry_pairs(list));
    }
}

/// Reading with the right kind of channel version gives back every list that fits, and uses up its
/// bytes.
pub proof fn layout_round_trip(
    truncated: bool,
    entries: Seq<Entry>,
    extra: Seq<Channel>,
    varint: bool,
)
    requires
        entries.len() <= MAX_MODS,
        forall|i: int| 0 <= i < entries.len() ==> entry_fits(#[trigger] entries[i], varint),
        channels_fit(extra, MAX_EXTRA_CHANNELS, varint),
    ensures
        layout_of(list_bytes(truncated, entries, extra), varint) == Some(
            (list_model(truncated, entries, extra), true),
        ),
{
    let bytes = list_bytes(truncated, entries, extra);
    let count = codec::be_bytes(entries.len(), 2);
    let number = codec::varint_bytes(codec::unsigned32(extra.len() as int));
    let tail = number + channels_bytes(extra);
    reveal_with_fuel(codec::be_bytes, 3);
    assert(count.len() == 2);
    assert(bytes.subrange(1, 3) =~= count);
    lemma_be_value_two(count);
    assert(bytes.skip(3) =~= entries_bytes(entries) + tail);
    lemma_mods_from(entries, tail, varint);
    lemma_number_from(extra.len() as i32, channels_bytes(extra));
    lemma_channels_from(extra, Seq::empty(), MAX_EXTRA_CHANNELS, varint);
    assert(channels_bytes(extra) + Seq::empty() =~= channels_bytes(extra));
}

/// Decoding gives back every list with numbers for channel versions that was encoded and packed.
pub proof fn decoding_round_trip(truncated: bool, entries: Seq<Entry>, extra: Seq<Channel>)
    requires
        entries.len() <= MAX_MODS,
        forall|i: int| 0 <= i < entries.len() ==> entry_fits(#[trigger] entries[i], true),
        channels_fit(extra, MAX_EXTRA_CHANNELS, true),
        list_bytes(truncated, entries, extra).len() <= MAX_BYTES,
    ensures
        decoded(packed(list_bytes(truncated, entries, extra))) == Some(
            list_model(truncated, entries, extra),
        ),
{
    packing_round_trip(list_bytes(truncated, entries, extra));
    layout_round_trip(truncated, entries, extra, true);
}

/// Decoding gives back every list with texts for channel versions that was encoded and packed,
/// unless its bytes happen to be another list with numbers, up to the last of them.
pub proof fn decoding_round_trip_of_texts(
    truncated: bool,
    entries: Seq<Entry>,
    extra: Seq<Channel>,
)
    requires
        entries.len() <= MAX_MODS,
        forall|i: int| 0 <= i < entries.len() ==> entry_fits(#[trigger] entries[i], false),
        channels_fit(extra, MAX_EXTRA_CHANNELS, false),
        list_bytes(truncated, entries, extra).len() <= MAX_BYTES,
        layout_of(list_bytes(truncated, entries, extra), true) matches Some((m, full)) ==> full
            ==> m == list_model(truncated, entries, extra),
    ensures
        decoded(packed(list_bytes(truncated, entries, extra))) == Some(
            list_model(truncated, entries, extra),
        ),
{
    packing_round_trip(list_bytes(truncated, entries, extra));
    layout_round_trip(truncated, entries, extra, false);
}

/// An error in the list loses no mod that was read before it.
pub proof fn errors_keep_earlier_mods(s: Seq<u8>, k: nat, n: nat, varint: bool)
    requires
        k <= n,
    ensures
        mods_from(s, k, varint).0.is_prefix_of(mods_from(s, n, varint).0),
    decreases n,
{
    if k < n {
        errors_keep_earlier_mods(s, k, (n - 1) as nat, varint);
    }
}

/// Where a list announces more mods than it goes on to hold in good order, those in good order at
/// its start are still read.
pub proof fn damage_keeps_earlier_mods(
    truncated: bool,
    entries: Seq<Entry>,
    count: nat,
    rest: Seq<u8>,
    varint: bool,
)
    requires
        entries.len() <= count <= MAX_MODS,
        forall|i: int| 0 <= i < entries.len() ==> entry_fits(#[trigger] entries[i], varint),
    ensures
        ({
            let bytes = seq![if truncated { 1u8 } else { 0u8 }] + codec::be_bytes(count, 2) + (
            entries_bytes(entries) + rest);
            &&& layout_of(bytes, varint) is Some
            &&& entry_pairs(entries).is_prefix_of((layout_of(bytes, varint)->0).0.mods)
        }),
{
    let head = codec::be_bytes(count, 2);
    let bytes = seq![if truncated { 1u8 } else { 0u8 }] + head + (entries_bytes(entries) + rest);
    reveal_with_fuel(codec::be_bytes, 3);
    assert(head.len() == 2);
    assert(bytes.subrange(1, 3) =~= head);
    lemma_be_value_two(head);
    assert(bytes.skip(3) =~= entries_bytes(entries) + rest);
    lemma_mods_from(entries, rest, varint);
    errors_keep_earlier_mods(bytes.skip(3), entries.len(), count, varint);
}

proof fn lemma_number_of_prefix(s: Seq<u8>, whole: Seq<u8>)
    requires
        s.is_prefix_of(whole),
        number_from(s).0 is Some,
    ensures
        number_from(whole).0 == number_from(s).0,
        number_from(s).1.is_prefix_of(number_from(whole).1),
{
    reveal(number_from);
    codec::varint_of_prefix(s, whole);
}

proof fn lemma_text_of_prefix(s: Seq<u8>, whole: Seq<u8>)
    requires
        s.is_prefix_of(whole),
        text_from(s).0 is Some,
    ensures
        text_from(whole).0 == text_from(s).0,
        text_from(s).1.is_prefix_of(text_from(whole).1),
{
    reveal(text_from);
    codec::string_of_prefix(s, whole, MAX_TEXT as nat);
}

proof fn lemma_channel_of_prefix(s: Seq<u8>, whole: Seq<u8>, varint: bool)
    requires
        s.is_prefix_of(whole),
        channel_from(s, varint).0,
    ensures
        channel_from(whole, varint).0,
        channel_from(s, varint).1.is_prefix_of(channel_from(whole, varint).1),
{
    lemma_text_of_prefix(s, whole);
    let t = text_from(s).1;
    let t_whole = text_from(whole).1;
    if varint {
        lemma_number_of_prefix(t, t_whole);
    } else {
        lemma_text_of_prefix(t, t_whole);
    }
}

proof fn lemma_channels_of_prefix(s: Seq<u8>, whole: Seq<u8>, n: nat, varint: bool)
    requires
        s.is_prefix_of(whole),
    ensures
        channels_from(s, n, varint).0 <= channels_from(whole, n, varint).0,
        channels_from(s, n, varint).1 ==> {
            &&& channels_from(whole, n, varint).1
            &&& channels_from(whole, n, varint).0 == channels_from(s, n, varint).0
            &&& channels_from(s, n, varint).2.is_prefix_of(channels_from(whole, n, varint).2)
        },
    decreases n,
{
    if n > 0 {
        let m = (n - 1) as nat;
        lemma_channels_of_prefix(s, whole, m, varint);
        let (_, all, t) = channels_from(s, m, varint);
        if all && channel_from(t, varint).0 {
            lemma_channel_of_prefix(t, channels_from(whole, m, varint).2, varint);
        }
    }
}

proof fn lemma_mod_of_prefix(s: Seq<u8>, whole: Seq<u8>, varint: bool)
    requires
        s.is_prefix_of(whole),
    ensures
        mod_from(s, varint).0 is Some ==> mod_from(whole, varint).0 == mod_from(s, varint).0,
        mod_from(s, varint).1 <= mod_from(whole, varint).1,
        mod_from(s, varint).2 ==> {
            &&& mod_from(whole, varint).2
            &&& mod_from(whole, varint).1 == mod_from(s, varint).1
            &&& mod_from(s, varint).3.is_prefix_of(mod_from(whole, varint).3)
        },
{
    if mod_from(s, varint).0 is Some {
        lemma_number_of_prefix(s, whole);
        let (flag, t) = number_from(s);
        let t_whole = number_from(whole).1;
        lemma_text_of_prefix(t, t_whole);
        let u = text_from(t).1;
        let u_whole = text_from(t_whole).1;
        let n = announced(flag->0 as int / 2, MAX_MOD_CHANNELS);
        if flag->0 % 2 != 0 {
            lemma_channels_of_prefix(u, u_whole, n, varint);
        } else {
            lemma_text_of_prefix(u, u_whole);
            lemma_channels_of_prefix(text_from(u).1, text_from(u_whole).1, n, varint);
        }
    }
}

proof fn lemma_mods_of_prefix(s: Seq<u8>, whole: Seq<u8>, n: nat, varint: bool)
    requires
        s.is_prefix_of(whole),
    ensures
        mods_from(s, n, varint).0.is_prefix_of(mods_from(whole, n, varint).0),
        mods_from(s, n, varint).1 <= mods_from(whole, n, varint).1,
        mods_from(s, n, varint).2 ==> {
            &&& mods_from(whole, n, varint).2
            &&& mods_from(whole, n, varint).0 == mods_from(s, n, varint).0
            &&& mods_from(whole, n, varint).1 == mods_from(s, n, varint).1
            &&& mods_from(s, n, varint).3.is_prefix_of(mods_from(whole, n, varint).3)
        },
    decreases n,
{
    if n > 0 {
        let m = (n - 1) as nat;
        lemma_mods_of_prefix(s, whole, m, varint);
        let (_, _, all, t) = mods_from(s, m, varint);
        if all {
            lemma_mod_of_prefix(t, mods_from(whole, m, varint).3, varint);
        }
    }
}

proof fn lemma_mods_len(s: Seq<u8>, n: nat, varint: bool)
    ensures
        mods_from(s, n, varint).0.len() <= n,
        mods_from(s, n, varint).2 ==> mods_from(s, n, varint).0.len() == n,
    decreases n,
{
    if n > 0 {
        lemma_mods_len(s, (n - 1) as nat, varint);
    }
}

/// A list never holds more mods than it announces, and holds them all where it was read to its end.
pub proof fn full_lists_hold_every_mod(bytes: Seq<u8>, varint: bool)
    requires
        layout_of(bytes, varint) is Some,
    ensures
        (layout_of(bytes, varint)->0).0.mods.len() <= codec::be_value(bytes.subrange(1, 3)),
        (layout_of(bytes, varint)->0).1 ==> (layout_of(bytes, varint)->0).0.mods.len()
            == codec::be_value(bytes.subrange(1, 3)),
{
    lemma_mods_len(bytes.skip(3), codec::be_value(bytes.subrange(1, 3)), varint);
}

/// Cutting a list short behind its head loses later mods and channels only: the mods that are still
/// read are the first ones, and nothing else is read.
pub proof fn cutting_keeps_earlier_mods(bytes: Seq<u8>, k: int, varint: bool)
    requires
        3 <= k <= bytes.len(),
    ensures
        match (layout_of(bytes.take(k), varint), layout_of(bytes, varint)) {
            (Some((cut, _)), Some((whole, _))) => {
                &&& cut.mods.is_prefix_of(whole.mods)
                &&& cut.channels <= whole.channels
                &&& cut.truncated == whole.truncated
            },
            (None, None) => true,
            _ => false,
        },
{
    let cut = bytes.take(k);
    assert(cut.subrange(1, 3) =~= bytes.subrange(1, 3));
    let count = codec::be_value(bytes.subrange(1, 3));
    let s = cut.skip(3);
    let whole = bytes.skip(3);
    assert(s.is_prefix_of(whole));
    lemma_mods_of_prefix(s, whole, count, varint);
    let (_, _, clean, t) = mods_from(s, count, varint);
    if clean && number_from(t).0 is Some {
        let t_whole = mods_from(whole, count, varint).3;
        lemma_number_of_prefix(t, t_whole);
        let n = announced(number_from(t).0->0 as int, MAX_EXTRA_CHANNELS);
        lemma_channels_of_prefix(number_from(t).1, number_from(t_whole).1, n, varint);
    }
}

} // verus!
