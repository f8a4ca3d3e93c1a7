//! The full query of a server that answers it, without the socket.
//!
//! The client asks for a token, then for everything. The answer has a head of sixteen bytes, texts
//! for keys and values, an empty key, a marker, and the names of all players. Each text ends with a
//! zero byte.

use vstd::prelude::*;
use crate::minecraft::codec;
use crate::minecraft::outside;
use crate::minecraft::protocol::{PingError, PingErrorView};
use crate::minecraft::text;

verus! {

/// The number of the session.
pub const SESSION: i32 = 1;

/// What a server says about itself.
#[derive(Debug, Clone)]
pub struct QueryResult {
    pub motd: String,
    pub gametype: String,
    pub version: String,
    /// The server software and its plugins.
    pub plugins: String,
    pub map: String,
    pub online: i64,
    pub max: i64,
    pub host_ip: String,
    pub host_port: u16,
    /// The names of all players.
    pub players: Vec<String>,
    /// All keys with their values, in the order of the keys.
    pub kv: Vec<(String, String)>,
    /// The time that the query took, in milliseconds.
    pub latency: u128,
}

/// What a [`QueryResult`] holds.
#[verifier::ext_equal]
pub struct QueryView {
    pub motd: Seq<char>,
    pub gametype: Seq<char>,
    pub version: Seq<char>,
    pub plugins: Seq<char>,
    pub map: Seq<char>,
    pub online: i64,
    pub max: i64,
    pub host_ip: Seq<char>,
    pub host_port: u16,
    pub players: Seq<Seq<char>>,
    pub kv: Map<Seq<char>, Seq<char>>,
    pub latency: u128,
}

// ---- keys and values ----

/// The characters of keys and values.
pub open spec fn pairs(list: Seq<(String, String)>) -> Seq<(Seq<char>, Seq<char>)> {
    Seq::new(list.len(), |i: int| (list[i].0@, list[i].1@))
}

/// The keys stand in the order of a dictionary, and none stands there twice.
pub open spec fn sorted(list: Seq<(Seq<char>, Seq<char>)>) -> bool {
    forall|i: int, j: int|
        0 <= i < j < list.len() ==> text::comes_before(
            (#[trigger] list[i]).0,
            (#[trigger] list[j]).0,
        )
}

/// The key stands in the list.
pub open spec fn has_key(list: Seq<(Seq<char>, Seq<char>)>, key: Seq<char>) -> bool {
    exists|i: int| 0 <= i < list.len() && (#[trigger] list[i]).0 == key
}

/// Where a key stands.
pub open spec fn key_index(list: Seq<(Seq<char>, Seq<char>)>, key: Seq<char>) -> int {
    choose|i: int| 0 <= i < list.len() && (#[trigger] list[i]).0 == key
}

/// The value of a key.
pub open spec fn value_of(list: Seq<(Seq<char>, Seq<char>)>, key: Seq<char>) -> Seq<char> {
    list[key_index(list, key)].1
}

/// The list as a map.
pub open spec fn as_map(list: Seq<(Seq<char>, Seq<char>)>) -> Map<Seq<char>, Seq<char>> {
    Map::new(|k: Seq<char>| has_key(list, k), |k: Seq<char>| value_of(list, k))
}

impl QueryResult {
    /// What the result holds.
    pub open spec fn model(self) -> QueryView {
        QueryView {
            motd: self.motd@,
            gametype: self.gametype@,
            version: self.version@,
            plugins: self.plugins@,
            map: self.map@,
            online: self.online,
            max: self.max,
            host_ip: self.host_ip@,
            host_port: self.host_port,
            players: text::views(self.players@),
            kv: as_map(pairs(self.kv@)),
            latency: self.latency,
        }
    }
}

impl Default for QueryResult {
    fn default() -> (r: Self)
        ensures
            r.model() == (QueryView {
                motd: Seq::empty(),
                gametype: Seq::empty(),
                version: Seq::empty(),
                plugins: Seq::empty(),
                map: Seq::empty(),
                online: 0,
                max: 0,
                host_ip: Seq::empty(),
                host_port: 0,
                players: Seq::empty(),
                kv: Map::empty(),
                latency: 0,
            }),
            sorted(pairs(r.kv@)),
    {
        let r = QueryResult {
            motd: String::new(),
            gametype: String::new(),
            version: String::new(),
            plugins: String::new(),
            map: String::new(),
            online: 0,
            max: 0,
            host_ip: String::new(),
            host_port: 0,
            players: Vec::new(),
            kv: Vec::new(),
            latency: 0,
        };
        assert(text::views(r.players@) =~= Seq::empty());
        assert(as_map(pairs(r.kv@)) =~= Map::empty());
        r
    }
}

proof fn lemma_unique_key(list: Seq<(Seq<char>, Seq<char>)>, i: int)
    requires
        sorted(list),
        0 <= i < list.len(),
    ensures
        has_key(list, list[i].0),
        value_of(list, list[i].0) == list[i].1,
{
    let key = list[i].0;
    assert(has_key(list, key));
    let j = key_index(list, key);
    assert(0 <= j < list.len() && list[j].0 == key);
    if i < j {
        text::lemma_one_before(list[i].0, list[j].0);
    } else if j < i {
        text::lemma_one_before(list[j].0, list[i].0);
    }
}

/// Puts a value under a key.
fn put(list: &mut Vec<(String, String)>, key: String, value: String)
    requires
        sorted(pairs(old(list)@)),
    ensures
        sorted(pairs(final(list)@)),
        as_map(pairs(final(list)@)) == as_map(pairs(old(list)@)).insert(key@, value@),
{
    let ghost before = pairs(list@);
    let mut i: usize = 0;
    while i < list.len() && text::is_before(list[i].0.as_str(), key.as_str())
        invariant
            before == pairs(list@),
            i <= list@.len(),
            forall|k: int| 0 <= k < i ==> text::comes_before((#[trigger] before[k]).0, key@),
        decreases list@.len() - i,
    {
        assert(before[i as int].0 == list@[i as int].0@);
        i += 1;
    }
    let replace = i < list.len() && text::same(list[i].0.as_str(), key.as_str());
    let ghost k = key@;
    let ghost v = value@;
    if replace {
        list.set(i, (key, value));
    } else {
        list.insert(i, (key, value));
    }
    proof {
        let after = pairs(list@);
        if replace {
            assert(after =~= before.update(i as int, (k, v)));
            assert(before[i as int].0 == k);
            assert forall|a: int, b: int| 0 <= a < b < after.len() implies text::comes_before(
                (#[trigger] after[a]).0,
                (#[trigger] after[b]).0,
            ) by {
                assert(after[a].0 == before[a].0 && after[b].0 == before[b].0);
                assert(text::comes_before(before[a].0, before[b].0));
            }
        } else {
            assert(after =~= before.insert(i as int, (k, v)));
            if i < before.len() {
                text::lemma_one_before(before[i as int].0, k);
            }
            assert forall|b: int| i <= b < before.len() implies text::comes_before(
                k,
                (#[trigger] before[b]).0,
            ) by {
                if b > i {
                    assert(text::comes_before(before[i as int].0, before[b].0));
                    text::lemma_before_chain(k, before[i as int].0, before[b].0);
                }
            }
            assert forall|a: int, b: int| 0 <= a < b < after.len() implies text::comes_before(
                (#[trigger] after[a]).0,
                (#[trigger] after[b]).0,
            ) by {
                if a < i && b < i {
                    assert(text::comes_before(before[a].0, before[b].0));
                } else if a < i && b > i {
                    assert(text::comes_before(before[a].0, before[b - 1].0));
                } else if a == i {
                    assert(text::comes_before(k, before[b - 1].0));
                } else if a > i {
                    assert(text::comes_before(before[a - 1].0, before[b - 1].0));
                } else {
                    assert(b == i);
                    assert(text::comes_before(before[a].0, k));
                }
            }
        }
        lemma_put(before, after, i as int, k, v, replace);
    }
}

proof fn lemma_put(
    before: Seq<(Seq<char>, Seq<char>)>,
    after: Seq<(Seq<char>, Seq<char>)>,
    i: int,
    k: Seq<char>,
    v: Seq<char>,
    replace: bool,
)
    requires
        sorted(before),
        sorted(after),
        0 <= i <= before.len(),
        replace ==> i < before.len() && before[i].0 == k && after == before.update(i, (k, v)),
        !replace ==> after == before.insert(i, (k, v)),
    ensures
        as_map(after) == as_map(before).insert(k, v),
{
    let goal = as_map(before).insert(k, v);
    assert(after[i] == (k, v));
    lemma_unique_key(after, i);
    assert forall|q: Seq<char>| #[trigger] as_map(after).dom().contains(q) == goal.dom().contains(
        q,
    ) by {
        if has_key(after, q) && q != k {
            let a = choose|a: int| 0 <= a < after.len() && (#[trigger] after[a]).0 == q;
            let b = if replace || a < i {
                a
            } else {
                a - 1
            };
            assert(before[b].0 == q);
        }
        if has_key(before, q) {
            let b = choose|b: int| 0 <= b < before.len() && (#[trigger] before[b]).0 == q;
            let a = if replace || b < i {
                b
            } else {
                b + 1
            };
            assert(after[a].0 == q);
        }
    }
    assert forall|q: Seq<char>| #[trigger] as_map(after).dom().contains(q) implies as_map(after)[q]
        == goal[q] by {
        if q != k {
            let a = choose|a: int| 0 <= a < after.len() && (#[trigger] after[a]).0 == q;
            let b = if replace || a < i {
                a
            } else {
                a - 1
            };
            assert(before[b] == after[a]);
            lemma_unique_key(after, a);
            lemma_unique_key(before, b);
        }
    }
    assert(as_map(after) =~= goal);
}

/// The value of a key, or the empty text.
pub open spec fn value_or_empty(m: Map<Seq<char>, Seq<char>>, key: Seq<char>) -> Seq<char> {
    if m.dom().contains(key) {
        m[key]
    } else {
        Seq::empty()
    }
}

/// The value of a key, or the empty text.
fn value_at(list: &Vec<(String, String)>, key: &str) -> (r: String)
    requires
        sorted(pairs(list@)),
    ensures
        r@ == value_or_empty(as_map(pairs(list@)), key@),
{
    let ghost all = pairs(list@);
    for i in 0..list.len()
        invariant
            all == pairs(list@),
            sorted(all),
            forall|k: int| 0 <= k < i ==> (#[trigger] all[k]).0 != key@,
    {
        assert(all[i as int].0 == list@[i as int].0@);
        if text::same(list[i].0.as_str(), key) {
            proof {
                lemma_unique_key(all, i as int);
            }
            return list[i].1.clone();
        }
    }
    assert(!has_key(all, key@));
    String::new()
}

// ---- texts ----

/// How many bytes stand in front of the first zero byte, or altogether.
pub open spec fn zero_at(b: Seq<u8>) -> nat
    decreases b.len(),
{
    if b.len() == 0 || b[0] == 0 {
        0
    } else {
        1 + zero_at(b.drop_first())
    }
}

/// The text in front of the first zero byte.
pub open spec fn text_at(b: Seq<u8>) -> Seq<char> {
    outside::lossy(b.take(zero_at(b) as int))
}

proof fn lemma_zero_at(b: Seq<u8>)
    ensures
        zero_at(b) <= b.len(),
        forall|i: int| 0 <= i < zero_at(b) ==> b[i] != 0,
        zero_at(b) < b.len() ==> b[zero_at(b) as int] == 0,
    decreases b.len(),
{
    if b.len() > 0 && b[0] != 0 {
        let t = b.drop_first();
        lemma_zero_at(t);
        assert forall|i: int| 0 <= i < zero_at(b) implies b[i] != 0 by {
            if i > 0 {
                assert(t[i - 1] == b[i]);
            }
        }
        if zero_at(b) < b.len() {
            assert(t[zero_at(t) as int] == b[zero_at(b) as int]);
        }
    }
}

/// Reads the text that starts at `from`, and gives where the next one starts: behind the zero byte,
/// or one behind the end where there is none.
pub fn read_cstr(b: &[u8], from: usize) -> (r: (String, usize))
    requires
        from <= b.len() < usize::MAX,
    ensures
        r.0@ == text_at(b@.skip(from as int)),
        r.1 == from + zero_at(b@.skip(from as int)) + 1,
        r.1 <= b.len() + 1,
{
    let ghost rest = b@.skip(from as int);
    proof {
        lemma_zero_at(rest);
    }
    let mut end: usize = from;
    while end < b.len() && b[end] != 0
        invariant
            rest == b@.skip(from as int),
            from <= end <= b@.len(),
            zero_at(rest) <= rest.len(),
            forall|i: int| 0 <= i < zero_at(rest) ==> rest[i] != 0,
            zero_at(rest) < rest.len() ==> rest[zero_at(rest) as int] == 0,
            forall|i: int| 0 <= i < end - from ==> rest[i] != 0,
        decreases b@.len() - end,
    {
        assert(rest[end - from] == b@[end as int]);
        end += 1;
    }
    proof {
        let n = end - from;
        if n < zero_at(rest) {
            assert(rest[n] == b@[end as int]);
        }
        assert(n == zero_at(rest));
        assert(rest.take(n) =~= b@.subrange(from as int, end as int));
    }
    (outside::lossy_text(vstd::slice::slice_subrange(b, from, end)), end + 1)
}

// ---- the exchange ----

/// The request for a token.
pub open spec fn token_request() -> Seq<u8> {
    seq![0xFEu8, 0xFDu8, 0x09u8, 0u8, 0u8, 0u8, 1u8]
}

/// The request for everything.
pub open spec fn stat_request(token: int) -> Seq<u8> {
    seq![0xFEu8, 0xFDu8, 0x00u8, 0u8, 0u8, 0u8, 1u8] + codec::be_bytes(codec::unsigned32(token), 4)
        + seq![0u8, 0u8, 0u8, 0u8]
}

/// The request for a token.
pub fn build_handshake() -> (r: Vec<u8>)
    ensures
        r@ == token_request(),
{
    let mut v: Vec<u8> = Vec::new();
    v.push(0xFE);
    v.push(0xFD);
    v.push(0x09);
    v.push(0);
    v.push(0);
    v.push(0);
    v.push(1);
    assert(v@ =~= token_request());
    v
}

/// The request for everything.
pub fn build_full_stat(token: i32) -> (r: Vec<u8>)
    ensures
        r@ == stat_request(token as int),
{
    let mut v: Vec<u8> = Vec::new();
    v.push(0xFE);
    v.push(0xFD);
    v.push(0x00);
    v.push(0);
    v.push(0);
    v.push(0);
    v.push(1);
    let u: u32 = if token >= 0 {
        token as u32
    } else {
        (token as i64 + 0x1_0000_0000) as u32
    };
    codec::write_be(&mut v, u as u64, 4);
    v.push(0);
    v.push(0);
    v.push(0);
    v.push(0);
    assert(v@ =~= stat_request(token as int));
    v
}

/// The token of an answer.
pub open spec fn token_of(resp: Seq<u8>) -> Result<i32, PingErrorView> {
    if resp.len() < 6 || resp[0] != 0x09 {
        Err(PingErrorView::Protocol("query 握手响应异常"@))
    } else {
        match text::as_i32(text::trimmed(text_at(resp.skip(5)))) {
            Some(n) => Ok(n),
            None => Err(PingErrorView::Protocol("challenge token 非整数"@)),
        }
    }
}

/// Reads the token of an answer.
pub fn parse_token(resp: &[u8]) -> (r: Result<i32, PingError>)
    requires
        resp@.len() < usize::MAX,
    ensures
        match r {
            Ok(n) => token_of(resp@) == Ok::<i32, PingErrorView>(n),
            Err(e) => token_of(resp@) == Err::<i32, PingErrorView>(e@),
        },
{
    if resp.len() < 6 || resp[0] != 0x09 {
        return Err(PingError::Protocol("query 握手响应异常".to_owned()));
    }
    let (s, _) = read_cstr(resp, 5);
    let t = text::trim(s.as_str());
    match text::parse_i32(t.as_str()) {
        Some(n) => Ok(n),
        None => Err(PingError::Protocol("challenge token 非整数".to_owned())),
    }
}

// ---- the answer ----

/// Where the text behind the one at `pos` starts.
pub open spec fn next_pos(body: Seq<u8>, pos: int) -> int {
    pos + zero_at(body.skip(pos)) + 1
}

/// How many bytes there are from `pos` on.
pub open spec fn left(body: Seq<u8>, pos: int) -> nat {
    if pos < body.len() {
        (body.len() - pos) as nat
    } else {
        0
    }
}

/// The keys and values from `pos` on, added to those of `m`, and where they end.
pub open spec fn pairs_from(body: Seq<u8>, pos: int, m: Map<Seq<char>, Seq<char>>) -> (
    Map<Seq<char>, Seq<char>>,
    int,
)
    decreases left(body, pos),
{
    if pos < 0 || pos >= body.len() {
        (m, pos)
    } else {
        let key = text_at(body.skip(pos));
        let p = next_pos(body, pos);
        if key.len() == 0 || p > body.len() {
            (m, p)
        } else {
            pairs_from(body, next_pos(body, p), m.insert(key, text_at(body.skip(p))))
        }
    }
}

/// Every key from `pos` on ends with a zero byte.
pub open spec fn keys_end(body: Seq<u8>, pos: int) -> bool
    decreases left(body, pos),
{
    if pos < 0 || pos >= body.len() {
        true
    } else {
        let p = next_pos(body, pos);
        if text_at(body.skip(pos)).len() == 0 {
            true
        } else if p > body.len() {
            false
        } else {
            keys_end(body, next_pos(body, p))
        }
    }
}

/// The marker in front of the names of the players.
pub open spec fn marker() -> Seq<u8> {
    seq![0x01u8, 0x70u8, 0x6Cu8, 0x61u8, 0x79u8, 0x65u8, 0x72u8, 0x5Fu8, 0x00u8]
}

/// The position of the first marker.
pub open spec fn marker_at(b: Seq<u8>) -> Option<nat>
    decreases b.len(),
{
    if b.len() < 9 {
        None
    } else if b.take(9) == marker() {
        Some(0)
    } else {
        match marker_at(b.drop_first()) {
            Some(n) => Some(n + 1),
            None => None,
        }
    }
}

/// The names from `pos` on, up to an empty one.
pub open spec fn names_from(b: Seq<u8>, pos: int) -> Seq<Seq<char>>
    decreases left(b, pos),
{
    if pos < 0 || pos >= b.len() {
        Seq::empty()
    } else {
        let name = text_at(b.skip(pos));
        if name.len() == 0 {
            Seq::empty()
        } else {
            seq![name] + names_from(b, next_pos(b, pos))
        }
    }
}

/// The names of the players behind the marker and one more zero byte.
pub open spec fn players_of(rest: Seq<u8>) -> Seq<Seq<char>> {
    match marker_at(rest) {
        Some(n) => {
            let from = n + 9;
            names_from(
                rest,
                if from < rest.len() && rest[from as int] == 0 {
                    (from + 1) as int
                } else {
                    from as int
                },
            )
        },
        None => Seq::empty(),
    }
}

/// A number in a value, or -1.
pub open spec fn count_in(m: Map<Seq<char>, Seq<char>>, key: Seq<char>) -> i64 {
    match text::as_i64(text::trimmed(value_or_empty(m, key))) {
        Some(n) => n,
        None => (-1) as i64,
    }
}

/// What the answer says.
pub open spec fn stat_of(resp: Seq<u8>, latency: u128) -> Result<QueryView, PingErrorView> {
    let body = resp.skip(16);
    let (kv, pos) = pairs_from(body, 0, Map::empty());
    if resp.len() < 16 || resp[0] != 0 {
        Err(PingErrorView::Protocol("query full-stat 响应异常"@))
    } else {
        Ok(
            QueryView {
                motd: value_or_empty(kv, "hostname"@),
                gametype: value_or_empty(kv, "gametype"@),
                version: value_or_empty(kv, "version"@),
                plugins: value_or_empty(kv, "plugins"@),
                map: value_or_empty(kv, "map"@),
                online: count_in(kv, "numplayers"@),
                max: count_in(kv, "maxplayers"@),
                host_ip: value_or_empty(kv, "hostip"@),
                host_port: match text::as_u16(text::trimmed(value_or_empty(kv, "hostport"@))) {
                    Some(p) => p,
                    None => 0,
                },
                players: players_of(
                    if pos < body.len() {
                        body.skip(pos)
                    } else {
                        Seq::empty()
                    },
                ),
                kv,
                latency,
            },
        )
    }
}

/// The outcome of reading an answer.
pub open spec fn stat_result(r: Result<QueryResult, PingError>) -> Result<QueryView, PingErrorView> {
    match r {
        Ok(q) => Ok(q.model()),
        Err(e) => Err(e@),
    }
}

/// Whether every key that is read of an answer ends with a zero byte. No key is read of an answer
/// that is refused by its head.
pub fn keys_are_terminated(resp: &[u8]) -> (r: bool)
    requires
        resp@.len() < usize::MAX,
    ensures
        r == (resp@.len() >= 16 && resp@[0] == 0 ==> keys_end(resp@.skip(16), 0)),
{
    if resp.len() < 16 || resp[0] != 0 {
        return true;
    }
    let body = vstd::slice::slice_subrange(resp, 16, resp.len());
    assert(body@ =~= resp@.skip(16));
    let mut pos: usize = 0;
    while pos < body.len()
        invariant
            body@ == resp@.skip(16),
            resp@.len() >= 16,
            resp@[0] == 0,
            body.len() < usize::MAX,
            pos <= body.len() + 1,
            keys_end(body@, 0) == keys_end(body@, pos as int),
        decreases left(body@, pos as int),
    {
        let (key, p) = read_cstr(body, pos);
        if key.as_str().is_empty() {
            return true;
        }
        if p > body.len() {
            return false;
        }
        let (_, q) = read_cstr(body, p);
        pos = q;
    }
    true
}

/// Whether the marker stands at `at`.
fn is_marker(b: &[u8], at: usize) -> (r: bool)
    requires
        at + 9 <= b.len(),
    ensures
        r == (b@.subrange(at as int, at + 9) == marker()),
{
    let ghost part = b@.subrange(at as int, at + 9);
    let r = b[at] == 0x01 && b[at + 1] == 0x70 && b[at + 2] == 0x6C && b[at + 3] == 0x61 && b[at + 4]
        == 0x79 && b[at + 5] == 0x65 && b[at + 6] == 0x72 && b[at + 7] == 0x5F && b[at + 8] == 0x00;
    proof {
        if r {
            assert(part =~= marker());
        } else {
            assert(part[0] == b@[at as int] && part[1] == b@[at + 1] && part[2] == b@[at + 2]
                && part[3] == b@[at + 3] && part[4] == b@[at + 4] && part[5] == b@[at + 5]
                && part[6] == b@[at + 6] && part[7] == b@[at + 7] && part[8] == b@[at + 8]);
            let m = marker();
            assert(m[0] == 0x01 && m[1] == 0x70 && m[2] == 0x6C && m[3] == 0x61 && m[4] == 0x79
                && m[5] == 0x65 && m[6] == 0x72 && m[7] == 0x5F && m[8] == 0x00);
        }
    }
    r
}

/// The position of the first marker.
fn find_marker(b: &[u8]) -> (r: Option<usize>)
    ensures
        match r {
            Some(n) => marker_at(b@) == Some(n as nat) && n + 9 <= b.len(),
            None => marker_at(b@) is None,
        },
{
    let mut i: usize = 0;
    assert(b@.skip(0) =~= b@);
    while b.len() - i >= 9
        invariant
            i <= b@.len(),
            marker_at(b@) == (match marker_at(b@.skip(i as int)) {
                Some(n) => Some((n + i) as nat),
                None => None::<nat>,
            }),
        decreases b@.len() - i,
    {
        let ghost rest = b@.skip(i as int);
        assert(rest.take(9) =~= b@.subrange(i as int, i + 9));
        if is_marker(b, i) {
            return Some(i);
        }
        assert(rest.drop_first() =~= b@.skip(i + 1));
        i += 1;
    }
    None
}

/// The names of the players behind the marker.
pub fn parse_players(rest: &[u8]) -> (r: Vec<String>)
    requires
        rest@.len() < usize::MAX,
    ensures
        text::views(r@) == players_of(rest@),
{
    let mut players: Vec<String> = Vec::new();
    assert(text::views(players@) =~= Seq::empty());
    let start: usize = match find_marker(rest) {
        Some(n) => n + 9,
        None => {
            return players;
        },
    };
    let mut pos: usize = if start < rest.len() && rest[start] == 0 {
        start + 1
    } else {
        start
    };
    let ghost all = names_from(rest@, pos as int);
    assert(all == players_of(rest@));
    assert(text::views(players@) + all =~= all);
    while pos < rest.len()
        invariant
            rest.len() < usize::MAX,
            pos <= rest.len() + 1,
            all == players_of(rest@),
            text::views(players@) + names_from(rest@, pos as int) =~= all,
        decreases left(rest@, pos as int),
    {
        let (name, next) = read_cstr(rest, pos);
        if name.as_str().is_empty() {
            assert(text::views(players@) + Seq::empty() =~= text::views(players@));
            return players;
        }
        let ghost before = text::views(players@);
        let ghost more = names_from(rest@, next as int);
        players.push(name);
        assert(text::views(players@) =~= before.push(name@));
        assert(before.push(name@) + more =~= before + (seq![name@] + more));
        pos = next;
    }
    assert(text::views(players@) + Seq::empty() =~= text::views(players@));
    players
}

/// A number in a value, or -1.
fn count_at(list: &Vec<(String, String)>, key: &str) -> (r: i64)
    requires
        sorted(pairs(list@)),
    ensures
        r == count_in(as_map(pairs(list@)), key@),
{
    let s = value_at(list, key);
    let t = text::trim(s.as_str());
    match text::parse_i64(t.as_str()) {
        Some(n) => n,
        None => -1,
    }
}

/// Reads the answer to the request for everything.
pub fn parse_full(resp: &[u8], latency: u128) -> (r: Result<QueryResult, PingError>)
    requires
        resp@.len() < usize::MAX,
        resp@.len() >= 16 && resp@[0] == 0 ==> keys_end(resp@.skip(16), 0),
    ensures
        stat_result(r) == stat_of(resp@, latency),
        r matches Ok(q) ==> sorted(pairs(q.kv@)),
{
    if resp.len() < 16 || resp[0] != 0 {
        return Err(PingError::Protocol("query full-stat 响应异常".to_owned()));
    }
    let body = vstd::slice::slice_subrange(resp, 16, resp.len());
    assert(body@ =~= resp@.skip(16));
    let mut kv: Vec<(String, String)> = Vec::new();
    let mut pos: usize = 0;
    let mut more = true;
    assert(sorted(pairs(kv@)));
    assert(as_map(pairs(kv@)) =~= Map::empty());
    let ghost whole = pairs_from(body@, 0, Map::empty());
    while pos < body.len() && more
        invariant
            body.len() < usize::MAX,
            pos <= body.len() + 1,
            more ==> keys_end(body@, pos as int),
            sorted(pairs(kv@)),
            whole == (if more {
                pairs_from(body@, pos as int, as_map(pairs(kv@)))
            } else {
                (as_map(pairs(kv@)), pos as int)
            }),
        decreases left(body@, pos as int),
    {
        let (key, p) = read_cstr(body, pos);
        if key.as_str().is_empty() {
            more = false;
            pos = p;
            continue;
        }
        let (value, q) = read_cstr(body, p);
        put(&mut kv, key, value);
        pos = q;
    }
    let from: usize = if pos < body.len() {
        pos
    } else {
        body.len()
    };
    let rest = vstd::slice::slice_subrange(body, from, body.len());
    proof {
        if pos < body.len() {
            assert(rest@ =~= body@.skip(pos as int));
        } else {
            assert(rest@ =~= Seq::empty());
        }
    }
    let players = parse_players(rest);
    let p = value_at(&kv, "hostport");
    let t = text::trim(p.as_str());
    let host_port: u16 = match text::parse_u16(t.as_str()) {
        Some(n) => n,
        None => 0,
    };
    Ok(
        QueryResult {
            motd: value_at(&kv, "hostname"),
            gametype: value_at(&kv, "gametype"),
            version: value_at(&kv, "version"),
            plugins: value_at(&kv, "plugins"),
            map: value_at(&kv, "map"),
            online: count_at(&kv, "numplayers"),
            max: count_at(&kv, "maxplayers"),
            host_ip: value_at(&kv, "hostip"),
            host_port,
            players,
            kv,
            latency,
        },
    )
}

// ---- laws ----

/// A text on the wire, with its zero byte.
pub open spec fn cstr(s: Seq<char>) -> Seq<u8> {
    vstd::utf8::encode_utf8(s).push(0)
}

/// The text can stand on the wire.
pub open spec fn plain(s: Seq<char>) -> bool {
    !vstd::utf8::encode_utf8(s).contains(0u8)
}

/// Names on the wire.
pub open spec fn names_bytes(names: Seq<Seq<char>>) -> Seq<u8>
    decreases names.len(),
{
    if names.len() == 0 {
        Seq::empty()
    } else {
        cstr(names[0]) + names_bytes(names.drop_first())
    }
}

/// Keys and values on the wire.
pub open spec fn pairs_bytes(list: Seq<(Seq<char>, Seq<char>)>) -> Seq<u8>
    decreases list.len(),
{
    if list.len() == 0 {
        Seq::empty()
    } else {
        cstr(list[0].0) + (cstr(list[0].1) + pairs_bytes(list.drop_first()))
    }
}

/// The map with keys and values added.
pub open spec fn added(m: Map<Seq<char>, Seq<char>>, list: Seq<(Seq<char>, Seq<char>)>) -> Map<
    Seq<char>,
    Seq<char>,
>
    decreases list.len(),
{
    if list.len() == 0 {
        m
    } else {
        added(m.insert(list[0].0, list[0].1), list.drop_first())
    }
}

/// An answer: its head, keys and values, the empty key, the marker, a zero byte, the names and an
/// empty one.
pub open spec fn answer(
    head: Seq<u8>,
    list: Seq<(Seq<char>, Seq<char>)>,
    names: Seq<Seq<char>>,
) -> Seq<u8> {
    head + (pairs_bytes(list) + (seq![0u8] + (marker() + (seq![0u8] + (names_bytes(names)
        + seq![0u8])))))
}

proof fn lemma_cstr(s: Seq<char>, rest: Seq<u8>)
    requires
        plain(s),
    ensures
        zero_at(cstr(s) + rest) == vstd::utf8::encode_utf8(s).len(),
        text_at(cstr(s) + rest) == s,
{
    let b = vstd::utf8::encode_utf8(s);
    let all = cstr(s) + rest;
    lemma_zero_at(all);
    let n = zero_at(all) as int;
    if n < b.len() {
        assert(all[n] == b[n]);
        assert(b.contains(b[n]));
    }
    if n > b.len() {
        assert(all[b.len() as int] == 0);
    }
    assert(all.take(n) =~= b);
    vstd::utf8::encode_utf8_valid_utf8(s);
    vstd::utf8::encode_utf8_decode_utf8(s);
}

proof fn lemma_names(b: Seq<u8>, pos: int, names: Seq<Seq<char>>)
    requires
        0 <= pos <= b.len(),
        b.skip(pos) == names_bytes(names) + seq![0u8],
        forall|i: int| 0 <= i < names.len() ==> plain(#[trigger] names[i]) && names[i].len() > 0,
    ensures
        names_from(b, pos) == names,
    decreases names.len(),
{
    let rest = b.skip(pos);
    if names.len() == 0 {
        assert(rest =~= seq![0u8]);
        assert(rest.take(0) =~= Seq::empty());
        assert(text_at(rest) =~= Seq::empty());
        assert(names_from(b, pos) =~= names);
    } else {
        let others = names.drop_first();
        let tail = names_bytes(others) + seq![0u8];
        assert(plain(names[0]) && names[0].len() > 0);
        assert(rest =~= cstr(names[0]) + tail);
        lemma_cstr(names[0], tail);
        let next = next_pos(b, pos);
        assert(b.skip(next) =~= tail) by {
            assert(b.skip(next) =~= rest.skip(next - pos));
        }
        assert forall|i: int| 0 <= i < others.len() implies plain(#[trigger] others[i])
            && others[i].len() > 0 by {
            assert(others[i] == names[i + 1]);
        }
        lemma_names(b, next, others);
        assert(seq![names[0]] + others =~= names);
    }
}

proof fn lemma_pairs(
    b: Seq<u8>,
    pos: int,
    list: Seq<(Seq<char>, Seq<char>)>,
    rest: Seq<u8>,
    m: Map<Seq<char>, Seq<char>>,
)
    requires
        0 <= pos <= b.len(),
        b.skip(pos) == pairs_bytes(list) + (seq![0u8] + rest),
        forall|i: int|
            0 <= i < list.len() ==> plain((#[trigger] list[i]).0) && plain(list[i].1)
                && list[i].0.len() > 0,
    ensures
        pairs_from(b, pos, m) == (added(m, list), pos + pairs_bytes(list).len() + 1),
        keys_end(b, pos),
    decreases list.len(),
{
    let all = b.skip(pos);
    if list.len() == 0 {
        assert(all =~= seq![0u8] + rest);
        assert(all[0] == 0);
        assert(all.take(0) =~= Seq::empty());
        assert(text_at(all) =~= Seq::empty());
    } else {
        let (k, v) = list[0];
        let others = list.drop_first();
        let tail = pairs_bytes(others) + (seq![0u8] + rest);
        assert(plain(list[0].0) && plain(list[0].1) && list[0].0.len() > 0);
        assert(all =~= cstr(k) + (cstr(v) + tail));
        lemma_cstr(k, cstr(v) + tail);
        let p = next_pos(b, pos);
        assert(b.skip(p) =~= cstr(v) + tail) by {
            assert(b.skip(p) =~= all.skip(p - pos));
        }
        lemma_cstr(v, tail);
        let q = next_pos(b, p);
        assert(b.skip(q) =~= tail) by {
            assert(b.skip(q) =~= b.skip(p).skip(q - p));
        }
        assert forall|i: int| 0 <= i < others.len() implies plain((#[trigger] others[i]).0)
            && plain(others[i].1) && others[i].0.len() > 0 by {
            assert(others[i] == list[i + 1]);
        }
        lemma_pairs(b, q, others, rest, m.insert(k, v));
    }
}

/// An answer is read as it was written: a later value of a key replaces an earlier one, and all
/// players are there.
pub proof fn answer_round_trip(
    head: Seq<u8>,
    list: Seq<(Seq<char>, Seq<char>)>,
    names: Seq<Seq<char>>,
    latency: u128,
)
    requires
        head.len() == 16,
        head[0] == 0,
        forall|i: int|
            0 <= i < list.len() ==> plain((#[trigger] list[i]).0) && plain(list[i].1)
                && list[i].0.len() > 0,
        forall|i: int| 0 <= i < names.len() ==> plain(#[trigger] names[i]) && names[i].len() > 0,
    ensures
        keys_end(answer(head, list, names).skip(16), 0),
        stat_of(answer(head, list, names), latency) is Ok,
        stat_of(answer(head, list, names), latency)->Ok_0.kv == added(Map::empty(), list),
        stat_of(answer(head, list, names), latency)->Ok_0.players == names,
{
    let resp = answer(head, list, names);
    let body = resp.skip(16);
    let last = names_bytes(names) + seq![0u8];
    let rest = marker() + (seq![0u8] + last);
    assert(body =~= pairs_bytes(list) + (seq![0u8] + rest));
    assert(body.skip(0) =~= body);
    lemma_pairs(body, 0, list, rest, Map::empty());
    let pos = pairs_bytes(list).len() + 1;
    assert(body.skip(pos as int) =~= rest);
    assert(rest.take(9) =~= marker());
    assert(rest[9] == 0);
    assert(rest.skip(10) =~= last);
    lemma_names(rest, 10, names);
}

/// The request for everything carries the token that the server gave, behind the marker and the
/// number of the session.
pub proof fn requests_carry_the_token(token: i32)
    ensures
        ({
            let r = stat_request(token as int);
            &&& r.len() == 15
            &&& r.take(7) == seq![0xFEu8, 0xFDu8, 0u8, 0u8, 0u8, 0u8, 1u8]
            &&& r[7] * 0x100_0000 + r[8] * 0x1_0000 + r[9] * 256 + r[10] == codec::unsigned32(
                token as int,
            )
            &&& r[11] == 0 && r[12] == 0 && r[13] == 0 && r[14] == 0
        }),
{
    reveal_with_fuel(codec::be_bytes, 5);
    let r = stat_request(token as int);
    assert(r.take(7) =~= seq![0xFEu8, 0xFDu8, 0u8, 0u8, 0u8, 0u8, 1u8]);
}

/// The texts of a result are the values of their keys; numbers that are none count as -1, and the
/// port as 0.
pub proof fn results_are_read_by_key(resp: Seq<u8>, latency: u128)
    requires
        stat_of(resp, latency) is Ok,
    ensures
        ({
            let q = stat_of(resp, latency)->Ok_0;
            let known = |k: Seq<char>| q.kv.dom().contains(k);
            &&& q.latency == latency
            &&& known("hostname"@) ==> q.motd == q.kv["hostname"@]
            &&& known("gametype"@) ==> q.gametype == q.kv["gametype"@]
            &&& known("version"@) ==> q.version == q.kv["version"@]
            &&& known("plugins"@) ==> q.plugins == q.kv["plugins"@]
            &&& known("map"@) ==> q.map == q.kv["map"@]
            &&& known("hostip"@) ==> q.host_ip == q.kv["hostip"@]
            &&& !known("hostname"@) ==> q.motd.len() == 0
            &&& !known("numplayers"@) ==> q.online == -1
            &&& known("numplayers"@) ==> (text::as_i64(
                text::trimmed(q.kv["numplayers"@]),
            ) matches Some(n) ==> q.online == n)
            &&& known("maxplayers"@) ==> (text::as_i64(
                text::trimmed(q.kv["maxplayers"@]),
            ) matches Some(n) ==> q.max == n)
            &&& known("hostport"@) ==> (text::as_u16(
                text::trimmed(q.kv["hostport"@]),
            ) matches Some(n) ==> q.host_port == n)
        }),
{
    let q = stat_of(resp, latency)->Ok_0;
    lemma_empty_is_no_number();
}

proof fn lemma_empty_is_no_number()
    ensures
        text::as_i64(text::trimmed(Seq::empty())) is None,
{
}

/// The token is the number in the text of the answer; an answer of another kind is refused.
pub proof fn tokens_are_read(resp: Seq<u8>, n: i32)
    ensures
        resp.len() < 6 || resp[0] != 9 ==> token_of(resp) is Err,
        resp.len() >= 6 && resp[0] == 9 && text::as_i32(text::trimmed(text_at(resp.skip(5))))
            == Some(n) ==> token_of(resp) == Ok::<i32, PingErrorView>(n),
        resp.len() >= 6 && resp[0] == 9 && text::as_i32(text::trimmed(text_at(resp.skip(5)))) is None
            ==> token_of(resp) is Err,
        resp.len() < 16 || resp[0] != 0 ==> stat_of(resp, 0) is Err,
        resp.len() >= 16 && resp[0] == 0 ==> stat_of(resp, 0) is Ok,
{
}

} // verus!
