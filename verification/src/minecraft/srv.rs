//! SRV records of a host, without the socket: the query, and what the answer says.
//!
//! Whatever is wrong with an answer, the outcome is that there is no record.

use vstd::prelude::*;
use crate::minecraft::outside;
use crate::minecraft::text;

verus! {

/// The longest label of a name, in bytes.
pub const MAX_LABEL: usize = 63;

/// How often a name may be continued elsewhere.
pub const MAX_JUMPS: u32 = 64;

/// The kind of an SRV record.
pub const TYPE_SRV: u16 = 33;

// ---- the query ----

/// The name under which the record of a host stands.
pub fn service_name(host: &str) -> (r: String)
    ensures
        r@ == "_minecraft._tcp."@ + host@,
{
    text::concat("_minecraft._tcp.", host)
}

/// The head of a query: a number, the wish for recursion, and one question.
pub open spec fn head_bytes() -> Seq<u8> {
    seq![0x12u8, 0x34u8, 0x01u8, 0u8, 0u8, 0x01u8, 0u8, 0u8, 0u8, 0u8, 0u8, 0u8]
}

/// A label behind its length; one that is empty or too long is left out.
pub open spec fn label_bytes(label: Seq<char>) -> Seq<u8> {
    let b = vstd::utf8::encode_utf8(label);
    if b.len() == 0 || b.len() > MAX_LABEL {
        Seq::empty()
    } else {
        seq![b.len() as u8] + b
    }
}

/// Labels one after the other.
pub open spec fn labels_bytes(labels: Seq<Seq<char>>) -> Seq<u8>
    decreases labels.len(),
{
    if labels.len() == 0 {
        Seq::empty()
    } else {
        labels_bytes(labels.drop_last()) + label_bytes(labels.last())
    }
}

/// The query for the SRV records of a name.
pub open spec fn query_bytes(name: Seq<char>) -> Seq<u8> {
    head_bytes() + labels_bytes(text::pieces(name, '.')) + seq![0u8, 0u8, 0x21u8, 0u8, 0x01u8]
}

/// The query for the SRV records of a name.
pub fn build_query(qname: &str) -> (r: Vec<u8>)
    ensures
        r@ == query_bytes(qname@),
{
    let mut q: Vec<u8> = Vec::new();
    q.push(0x12);
    q.push(0x34);
    q.push(0x01);
    q.push(0x00);
    q.push(0x00);
    q.push(0x01);
    q.push(0x00);
    q.push(0x00);
    q.push(0x00);
    q.push(0x00);
    q.push(0x00);
    q.push(0x00);
    assert(q@ =~= head_bytes());
    let labels = text::split(qname, '.');
    let ghost all = text::views(labels@);
    assert(all.take(0) =~= Seq::empty());
    for i in 0..labels.len()
        invariant
            all == text::views(labels@),
            q@ =~= head_bytes() + labels_bytes(all.take(i as int)),
    {
        assert(all.take(i + 1).drop_last() =~= all.take(i as int));
        assert(all.take(i + 1).last() == labels@[i as int]@);
        let bytes = labels[i].as_str().as_bytes();
        if bytes.len() > 0 && bytes.len() <= MAX_LABEL {
            q.push(bytes.len() as u8);
            q.extend_from_slice(bytes);
        }
        assert(q@ =~= head_bytes() + labels_bytes(all.take(i + 1)));
    }
    assert(all.take(all.len() as int) =~= all);
    q.push(0);
    q.push(0x00);
    q.push(0x21);
    q.push(0x00);
    q.push(0x01);
    assert(q@ =~= query_bytes(qname@));
    q
}

// ---- names ----

/// The labels of the name at `pos`, and where the name ends there. A byte from 192 on says, with
/// the next one, where the name goes on; `jumps` of these have been followed.
pub open spec fn labels_at(msg: Seq<u8>, pos: int, jumps: nat) -> Option<(Seq<Seq<char>>, int)>
    decreases MAX_JUMPS + 1 - jumps, msg.len() - pos,
{
    if !(0 <= pos < msg.len()) || jumps > MAX_JUMPS {
        None
    } else {
        let len = msg[pos];
        if len >= 0xC0 {
            if pos + 1 >= msg.len() {
                None
            } else {
                match labels_at(msg, (len - 0xC0) * 256 + msg[pos + 1], jumps + 1) {
                    Some((labels, _)) => Some((labels, pos + 2)),
                    None => None,
                }
            }
        } else if len == 0 {
            Some((Seq::empty(), pos + 1))
        } else if pos + 1 + len > msg.len() {
            None
        } else {
            match labels_at(msg, pos + 1 + len, jumps) {
                Some((labels, end)) => Some(
                    (seq![outside::lossy(msg.subrange(pos + 1, pos + 1 + len))] + labels, end),
                ),
                None => None,
            }
        }
    }
}

/// The name at `pos`, and where it ends there.
pub open spec fn name_at(msg: Seq<u8>, pos: int) -> Option<(Seq<char>, int)> {
    match labels_at(msg, pos, 0) {
        Some((labels, end)) => Some((text::joined(labels, "."@), end)),
        None => None,
    }
}

/// The name and the position as numbers.
pub open spec fn name_view(r: Option<(String, usize)>) -> Option<(Seq<char>, int)> {
    match r {
        Some((s, n)) => Some((s@, n as int)),
        None => None,
    }
}

proof fn lemma_views_push(list: Seq<String>, s: String)
    ensures
        text::views(list.push(s)) == text::views(list).push(s@),
{
    assert(text::views(list.push(s)) =~= text::views(list).push(s@));
}

/// Reads the name at `start`.
pub fn read_name(msg: &[u8], start: usize) -> (r: Option<(String, usize)>)
    ensures
        name_view(r) == name_at(msg@, start as int),
        r matches Some((_, end)) ==> end <= msg@.len(),
{
    let mut labels: Vec<String> = Vec::new();
    let mut pos: usize = start;
    let mut next_after: Option<usize> = None;
    let mut jumps: u32 = 0;
    let ghost whole = labels_at(msg@, start as int, 0);
    assert(text::views(labels@) =~= Seq::empty());
    proof {
        if whole is Some {
            assert(text::views(labels@) + (whole->0).0 =~= (whole->0).0);
        }
    }
    loop
        invariant
            jumps <= MAX_JUMPS,
            whole == labels_at(msg@, start as int, 0),
            next_after matches Some(n) ==> n <= msg@.len(),
            ({
                let here = labels_at(msg@, pos as int, jumps as nat);
                match here {
                    Some((rest, end)) => whole == Some(
                        (
                            text::views(labels@) + rest,
                            match next_after {
                                Some(n) => n as int,
                                None => end,
                            },
                        ),
                    ),
                    None => whole is None,
                }
            }),
        decreases MAX_JUMPS + 1 - jumps, msg@.len() - pos,
    {
        if pos >= msg.len() {
            return None;
        }
        let len: u8 = msg[pos];
        if len >= 0xC0 {
            if msg.len() - pos < 2 {
                return None;
            }
            let ptr: usize = (len as usize - 0xC0) * 256 + msg[pos + 1] as usize;
            if next_after.is_none() {
                next_after = Some(pos + 2);
            }
            if jumps == MAX_JUMPS {
                assert(labels_at(msg@, ptr as int, (jumps + 1) as nat) is None);
                return None;
            }
            pos = ptr;
            jumps += 1;
            continue;
        }
        if len == 0 {
            let end: usize = match next_after {
                Some(n) => n,
                None => pos + 1,
            };
            assert(text::views(labels@) + Seq::empty() =~= text::views(labels@));
            return Some((text::join(&labels, "."), end));
        }
        if msg.len() - pos - 1 < len as usize {
            return None;
        }
        let s: usize = pos + 1;
        let e: usize = s + len as usize;
        let label = outside::lossy_text(vstd::slice::slice_subrange(msg, s, e));
        proof {
            lemma_views_push(labels@, label);
            let here = labels_at(msg@, e as int, jumps as nat);
            if here is Some {
                assert(text::views(labels@).push(label@) + (here->0).0 =~= text::views(labels@) + (
                seq![label@] + (here->0).0));
            }
        }
        labels.push(label);
        pos = e;
    }
}

/// Reads past the name at `start`.
pub fn skip_name(msg: &[u8], start: usize) -> (r: Option<usize>)
    ensures
        match r {
            Some(end) => {
                &&& name_at(msg@, start as int) matches Some((_, n))
                &&& (name_at(msg@, start as int)->0).1 == end
                &&& end <= msg@.len()
            },
            None => name_at(msg@, start as int) is None,
        },
{
    match read_name(msg, start) {
        Some((_, end)) => Some(end),
        None => None,
    }
}

// ---- the answer ----

/// The big-endian number in two bytes.
pub open spec fn be16(msg: Seq<u8>, at: int) -> int {
    256 * msg[at] + msg[at + 1]
}

/// Where the first `n` questions end.
pub open spec fn after_questions(msg: Seq<u8>, n: nat) -> Option<int>
    decreases n,
{
    if n == 0 {
        Some(12)
    } else {
        match after_questions(msg, (n - 1) as nat) {
            Some(pos) => match name_at(msg, pos) {
                Some((_, end)) => if end + 4 <= usize::MAX {
                    Some(end + 4)
                } else {
                    None
                },
                None => None,
            },
            None => None,
        }
    }
}

/// A record: its priority, the host and the port that it names.
pub open spec fn record_at(msg: Seq<u8>, p: int) -> Option<(int, Seq<char>, u16)> {
    let data = p + 10;
    if be16(msg, p) == TYPE_SRV && be16(msg, p + 8) >= 6 {
        match name_at(msg, data + 6) {
            Some((target, _)) => if target.len() > 0 {
                Some((be16(msg, data), target, be16(msg, data + 4) as u16))
            } else {
                None
            },
            None => None,
        }
    } else {
        None
    }
}

/// The record with the lower priority number, the first of equal ones.
pub open spec fn preferred(
    best: Option<(int, Seq<char>, u16)>,
    other: Option<(int, Seq<char>, u16)>,
) -> Option<(int, Seq<char>, u16)> {
    match (best, other) {
        (Some(a), Some(b)) => if b.0 < a.0 {
            other
        } else {
            best
        },
        (None, _) => other,
        (_, None) => best,
    }
}

/// The record to use among `best` and the next `n`, which stand at `pos`. Records behind one that
/// is cut off do not count; without its name a record spoils the answer.
pub open spec fn best_of(
    msg: Seq<u8>,
    pos: int,
    n: nat,
    best: Option<(int, Seq<char>, u16)>,
) -> Option<(int, Seq<char>, u16)>
    decreases n,
{
    if n == 0 {
        best
    } else {
        match name_at(msg, pos) {
            None => None,
            Some((_, p)) => if p + 10 > msg.len() || p + 10 + be16(msg, p + 8) > msg.len() {
                best
            } else {
                best_of(
                    msg,
                    p + 10 + be16(msg, p + 8),
                    (n - 1) as nat,
                    preferred(best, record_at(msg, p)),
                )
            },
        }
    }
}

/// The host and the port that an answer names.
pub open spec fn srv_of(msg: Seq<u8>) -> Option<(Seq<char>, u16)> {
    if msg.len() < 12 {
        None
    } else {
        match after_questions(msg, be16(msg, 4) as nat) {
            None => None,
            Some(pos) => match best_of(msg, pos, be16(msg, 6) as nat, None) {
                Some((_, host, port)) => Some((host, port)),
                None => None,
            },
        }
    }
}

/// The host and the port as plain values.
pub open spec fn srv_view(r: Option<(String, u16)>) -> Option<(Seq<char>, u16)> {
    match r {
        Some((h, p)) => Some((h@, p)),
        None => None,
    }
}

/// A record as plain values.
pub open spec fn record_view(r: Option<(u16, String, u16)>) -> Option<(int, Seq<char>, u16)> {
    match r {
        Some((a, h, p)) => Some((a as int, h@, p)),
        None => None,
    }
}

/// The big-endian number in two bytes.
fn be16_at(msg: &[u8], at: usize) -> (r: u16)
    requires
        at + 2 <= msg.len(),
    ensures
        r == be16(msg@, at as int),
{
    256 * (msg[at] as u16) + msg[at + 1] as u16
}

proof fn lemma_questions_stop(msg: Seq<u8>, i: nat, n: nat)
    requires
        i <= n,
        after_questions(msg, i) is None,
    ensures
        after_questions(msg, n) is None,
    decreases n,
{
    if i < n {
        lemma_questions_stop(msg, i, (n - 1) as nat);
    }
}

/// Reads the record at `p`.
fn read_record(msg: &[u8], p: usize) -> (r: Option<(u16, String, u16)>)
    requires
        p + 10 <= msg.len(),
        p + 10 + be16(msg@, p + 8) <= msg.len(),
    ensures
        record_view(r) == record_at(msg@, p as int),
{
    if be16_at(msg, p) != TYPE_SRV || be16_at(msg, p + 8) < 6 {
        return None;
    }
    let data: usize = p + 10;
    let priority: u16 = be16_at(msg, data);
    let port: u16 = be16_at(msg, data + 4);
    match read_name(msg, data + 6) {
        Some((target, _)) => {
            if target.as_str().is_empty() {
                None
            } else {
                Some((priority, target, port))
            }
        },
        None => None,
    }
}

/// Reads an answer: the host and the port of the record with the lowest priority number.
pub fn parse_srv(msg: &[u8]) -> (r: Option<(String, u16)>)
    ensures
        srv_view(r) == srv_of(msg@),
{
    if msg.len() < 12 {
        return None;
    }
    let qd: u16 = be16_at(msg, 4);
    let an: u16 = be16_at(msg, 6);
    let mut pos: usize = 12;
    for i in 0..qd
        invariant
            msg.len() >= 12,
            qd == be16(msg@, 4),
            after_questions(msg@, i as nat) == Some(pos as int),
            pos <= msg.len() + 4,
    {
        match skip_name(msg, pos) {
            Some(end) => {
                if end > usize::MAX - 4 {
                    proof {
                        lemma_questions_stop(msg@, (i + 1) as nat, qd as nat);
                    }
                    return None;
                }
                pos = end + 4;
            },
            None => {
                proof {
                    lemma_questions_stop(msg@, (i + 1) as nat, qd as nat);
                }
                return None;
            },
        }
    }
    let mut best: Option<(u16, String, u16)> = None;
    let mut i: u16 = 0;
    let mut cut_off = false;
    let ghost whole = best_of(msg@, pos as int, an as nat, None);
    while i < an && !cut_off
        invariant
            msg.len() >= 12,
            i <= an,
            an == be16(msg@, 6),
            srv_of(msg@) == (match whole {
                Some((_, host, port)) => Some((host, port)),
                None => None,
            }),
            whole == (if cut_off {
                record_view(best)
            } else {
                best_of(msg@, pos as int, (an - i) as nat, record_view(best))
            }),
        decreases an - i,
    {
        let p: usize = match skip_name(msg, pos) {
            Some(p) => p,
            None => {
                return None;
            },
        };
        i += 1;
        if msg.len() - p < 10 {
            cut_off = true;
            continue;
        }
        let len: usize = be16_at(msg, p + 8) as usize;
        if msg.len() - p - 10 < len {
            cut_off = true;
            continue;
        }
        let found = read_record(msg, p);
        let ghost before = record_view(best);
        let better = match (&best, &found) {
            (Some(a), Some(b)) => b.0 < a.0,
            (None, _) => true,
            (_, None) => false,
        };
        if better {
            best = found;
        }
        assert(record_view(best) == preferred(before, record_at(msg@, p as int)));
        pos = p + 10 + len;
    }
    match best {
        Some((_, host, port)) => Some((host, port)),
        None => None,
    }
}

// ---- name servers ----

/// The text behind `nameserver` on a line, without white space at its ends.
pub open spec fn server_on(line: Seq<char>) -> Option<Seq<char>> {
    let t = text::trimmed(line);
    let key = "nameserver"@;
    if t.len() >= key.len() && t.take(key.len() as int) == key {
        Some(text::trimmed(t.skip(key.len() as int)))
    } else {
        None
    }
}

/// The texts behind `nameserver` on the lines.
pub open spec fn servers_on(lines: Seq<Seq<char>>) -> Seq<Seq<char>>
    decreases lines.len(),
{
    if lines.len() == 0 {
        Seq::empty()
    } else {
        match server_on(lines.last()) {
            Some(s) => servers_on(lines.drop_last()).push(s),
            None => servers_on(lines.drop_last()),
        }
    }
}

/// The name servers that a resolver configuration lists, as they are written there.
pub fn nameserver_texts(content: &str) -> (r: Vec<String>)
    ensures
        text::views(r@) == servers_on(text::pieces(content@, '\n')),
{
    let lines = text::split(content, '\n');
    let ghost all = text::views(lines@);
    let mut out: Vec<String> = Vec::new();
    assert(all.take(0) =~= Seq::empty());
    assert(text::views(out@) =~= Seq::empty());
    let key = text::chars_of("nameserver");
    let k: usize = key.len();
    for i in 0..lines.len()
        invariant
            all == text::views(lines@),
            key@ == "nameserver"@,
            k == key@.len(),
            text::views(out@) =~= servers_on(all.take(i as int)),
    {
        assert(all.take(i + 1).drop_last() =~= all.take(i as int));
        assert(all.take(i + 1).last() == lines@[i as int]@);
        let t = text::trim(lines[i].as_str());
        let v = text::chars_of(t.as_str());
        if v.len() >= k {
            let head = text::string_of(v.as_slice(), 0, k);
            assert(head@ =~= t@.take(k as int));
            if text::same(head.as_str(), "nameserver") {
                let rest = text::string_of(v.as_slice(), k, v.len());
                assert(rest@ =~= t@.skip(k as int));
                let s = text::trim(rest.as_str());
                proof {
                    lemma_views_push(out@, s);
                }
                out.push(s);
            }
        }
    }
    assert(all.take(all.len() as int) =~= all);
    out
}

// ---- laws ----

/// The label can stand in a query.
pub open spec fn label_ok(label: Seq<char>) -> bool {
    1 <= vstd::utf8::encode_utf8(label).len() <= MAX_LABEL
}

proof fn lemma_labels_at(msg: Seq<u8>, pos: int, labels: Seq<Seq<char>>, rest: Seq<u8>)
    requires
        0 <= pos <= msg.len(),
        msg.skip(pos) == labels_bytes(labels) + seq![0u8] + rest,
        forall|i: int| 0 <= i < labels.len() ==> label_ok(#[trigger] labels[i]),
    ensures
        labels_at(msg, pos, 0) == Some((labels, pos + labels_bytes(labels).len() + 1)),
    decreases labels.len(),
{
    let tail = msg.skip(pos);
    if labels.len() == 0 {
        assert(tail[0] == msg[pos]);
        assert(labels =~= Seq::empty());
    } else {
        let first = labels[0];
        let others = labels.drop_first();
        let b = vstd::utf8::encode_utf8(first);
        lemma_labels_bytes_first(labels);
        assert(label_ok(labels[0]));
        assert(tail =~= seq![b.len() as u8] + b + labels_bytes(others) + seq![0u8] + rest);
        assert(tail[0] == msg[pos]);
        let next = pos + 1 + b.len();
        assert(msg.subrange(pos + 1, next) =~= b) by {
            assert forall|i: int| 0 <= i < b.len() implies msg.subrange(pos + 1, next)[i]
                == b[i] by {
                assert(tail[1 + i] == msg[pos + 1 + i]);
            }
        }
        assert(msg.skip(next) =~= labels_bytes(others) + seq![0u8] + rest) by {
            assert(msg.skip(next) =~= tail.skip((1 + b.len()) as int));
        }
        assert forall|i: int| 0 <= i < others.len() implies label_ok(#[trigger] others[i]) by {
            assert(others[i] == labels[i + 1]);
        }
        lemma_labels_at(msg, next, others, rest);
        vstd::utf8::encode_utf8_valid_utf8(first);
        vstd::utf8::encode_utf8_decode_utf8(first);
        assert(seq![first] + others =~= labels);
    }
}

proof fn lemma_labels_bytes_first(labels: Seq<Seq<char>>)
    requires
        labels.len() > 0,
    ensures
        labels_bytes(labels) == label_bytes(labels[0]) + labels_bytes(labels.drop_first()),
    decreases labels.len(),
{
    if labels.len() == 1 {
        assert(labels.drop_last() =~= Seq::empty());
        assert(labels.drop_first() =~= Seq::empty());
        assert(labels_bytes(labels) =~= label_bytes(labels[0]) + labels_bytes(
            labels.drop_first(),
        ));
    } else {
        let l = labels.drop_last();
        lemma_labels_bytes_first(l);
        assert(l.drop_first() =~= labels.drop_first().drop_last());
        assert(labels.drop_first().last() == labels.last());
        assert(labels_bytes(labels) =~= label_bytes(labels[0]) + labels_bytes(
            labels.drop_first(),
        ));
    }
}

/// The name that a query asks for is the one that was put into it, where each of its labels can
/// stand there.
pub proof fn query_round_trip(name: Seq<char>)
    requires
        forall|i: int|
            0 <= i < text::pieces(name, '.').len() ==> label_ok(
                #[trigger] text::pieces(name, '.')[i],
            ),
    ensures
        name_at(query_bytes(name), 12) == Some((name, query_bytes(name).len() - 4)),
{
    let msg = query_bytes(name);
    let labels = text::pieces(name, '.');
    let rest = seq![0u8, 0x21u8, 0u8, 0x01u8];
    assert(msg.skip(12) =~= labels_bytes(labels) + seq![0u8] + rest);
    lemma_labels_at(msg, 12, labels, rest);
    text::joining_undoes_splitting(name, '.');
    reveal_strlit(".");
    assert("."@ =~= seq!['.']);
}

/// Where the data of the record `k` start, counted from the one at `pos`, if it is whole.
pub open spec fn record_pos(msg: Seq<u8>, pos: int, k: nat) -> Option<int>
    decreases k,
{
    match name_at(msg, pos) {
        None => None,
        Some((_, p)) => if p + 10 > msg.len() || p + 10 + be16(msg, p + 8) > msg.len() {
            None
        } else if k == 0 {
            Some(p)
        } else {
            record_pos(msg, p + 10 + be16(msg, p + 8), (k - 1) as nat)
        },
    }
}

proof fn lemma_best_keeps(msg: Seq<u8>, pos: int, n: nat, best: Option<(int, Seq<char>, u16)>)
    requires
        best is Some,
        best_of(msg, pos, n, best) is Some,
    ensures
        (best_of(msg, pos, n, best)->0).0 <= (best->0).0,
    decreases n,
{
    if n > 0 {
        if let Some((_, p)) = name_at(msg, pos) {
            if !(p + 10 > msg.len() || p + 10 + be16(msg, p + 8) > msg.len()) {
                lemma_best_keeps(
                    msg,
                    p + 10 + be16(msg, p + 8),
                    (n - 1) as nat,
                    preferred(best, record_at(msg, p)),
                );
            }
        }
    }
}

/// No whole record of an answer has a lower priority number than the one that is used.
pub proof fn lowest_priority_is_used(
    msg: Seq<u8>,
    pos: int,
    n: nat,
    best: Option<(int, Seq<char>, u16)>,
    k: nat,
)
    requires
        k < n,
        best_of(msg, pos, n, best) is Some,
        record_pos(msg, pos, k) is Some,
        record_at(msg, record_pos(msg, pos, k)->0) is Some,
    ensures
        (best_of(msg, pos, n, best)->0).0 <= (record_at(msg, record_pos(msg, pos, k)->0)->0).0,
    decreases k,
{
    let (_, p) = name_at(msg, pos)->0;
    let next = p + 10 + be16(msg, p + 8);
    let b = preferred(best, record_at(msg, p));
    if k == 0 {
        lemma_best_keeps(msg, next, (n - 1) as nat, b);
    } else {
        lowest_priority_is_used(msg, next, (n - 1) as nat, b, (k - 1) as nat);
    }
}

/// A record says where it says it: its priority in the first two bytes of its data, the port in the
/// fifth and sixth, and the host behind them.
pub proof fn records_say_what_they_hold(msg: Seq<u8>, p: int, target: Seq<char>, end: int)
    requires
        0 <= p,
        p + 16 <= msg.len(),
        msg[p] == 0 && msg[p + 1] == 33,
        256 * msg[p + 8] + msg[p + 9] >= 6,
        name_at(msg, p + 16) == Some((target, end)),
        target.len() > 0,
    ensures
        record_at(msg, p) == Some(
            (
                256 * msg[p + 10] + msg[p + 11],
                target,
                (256 * msg[p + 14] + msg[p + 15]) as u16,
            ),
        ),
{
}

/// An answer with one record sends the client to the host and the port that the record names.
pub proof fn single_records_are_used(
    msg: Seq<u8>,
    pos: int,
    owner: Seq<char>,
    p: int,
    target: Seq<char>,
    end: int,
)
    requires
        msg.len() >= 12,
        after_questions(msg, (256 * msg[4] + msg[5]) as nat) == Some(pos),
        msg[6] == 0 && msg[7] == 1,
        name_at(msg, pos) == Some((owner, p)),
        0 <= p,
        p + 16 <= msg.len(),
        p + 10 + 256 * msg[p + 8] + msg[p + 9] <= msg.len(),
        msg[p] == 0 && msg[p + 1] == 33,
        256 * msg[p + 8] + msg[p + 9] >= 6,
        name_at(msg, p + 16) == Some((target, end)),
        target.len() > 0,
    ensures
        srv_of(msg) == Some((target, (256 * msg[p + 14] + msg[p + 15]) as u16)),
{
    records_say_what_they_hold(msg, p, target, end);
    let next = p + 10 + be16(msg, p + 8);
    assert(best_of(msg, next, 0, record_at(msg, p)) == record_at(msg, p));
    assert(best_of(msg, pos, 1, None) == best_of(msg, next, 0, preferred(None, record_at(msg, p))));
}

/// An answer without a record says nothing.
pub proof fn empty_answers_say_nothing(msg: Seq<u8>)
    requires
        msg.len() >= 12,
        msg[6] == 0 && msg[7] == 0,
    ensures
        srv_of(msg) is None,
{
}

} // verus!
