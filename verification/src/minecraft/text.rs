//! Text operations on sequences of characters: trimming, splitting, joining, integers in decimal.

use vstd::prelude::*;

verus! {

/// The characters of each string of a list.
pub open spec fn views(list: Seq<String>) -> Seq<Seq<char>> {
    Seq::new(list.len(), |i: int| list[i]@)
}

/// The characters of an optional string.
pub open spec fn opt_view(s: Option<String>) -> Option<Seq<char>> {
    match s {
        Some(t) => Some(t@),
        None => None,
    }
}

/// The code points with the Unicode property `White_Space`.
pub open spec fn is_white(c: char) -> bool {
    let n = c as u32;
    ||| 0x9 <= n <= 0xD
    ||| n == 0x20
    ||| n == 0x85
    ||| n == 0xA0
    ||| n == 0x1680
    ||| 0x2000 <= n <= 0x200A
    ||| n == 0x2028
    ||| n == 0x2029
    ||| n == 0x202F
    ||| n == 0x205F
    ||| n == 0x3000
}

/// The code points of the Unicode category `Cc`.
pub open spec fn is_ctl(c: char) -> bool {
    let n = c as u32;
    n <= 0x1F || 0x7F <= n <= 0x9F
}

/// `s` without the white space at its two ends.
pub open spec fn trimmed(s: Seq<char>) -> Seq<char>
    decreases s.len(),
{
    if s.len() > 0 && is_white(s.first()) {
        trimmed(s.drop_first())
    } else if s.len() > 0 && is_white(s.last()) {
        trimmed(s.drop_last())
    } else {
        s
    }
}

/// The pieces of `s` between the occurrences of `sep`; always at least one.
pub open spec fn pieces(s: Seq<char>, sep: char) -> Seq<Seq<char>>
    decreases s.len(),
{
    if s.len() == 0 {
        seq![Seq::<char>::empty()]
    } else {
        let before = pieces(s.drop_last(), sep);
        if s.last() == sep {
            before.push(Seq::<char>::empty())
        } else {
            before.update(before.len() - 1, before.last().push(s.last()))
        }
    }
}

/// The parts one after the other, with `sep` between neighbours.
pub open spec fn joined(parts: Seq<Seq<char>>, sep: Seq<char>) -> Seq<char>
    decreases parts.len(),
{
    if parts.len() == 0 {
        Seq::empty()
    } else if parts.len() == 1 {
        parts[0]
    } else {
        joined(parts.drop_last(), sep) + sep + parts.last()
    }
}

/// `c` with the letters `A` to `Z` made small.
pub open spec fn lower(c: char) -> char {
    if 'A' <= c <= 'Z' {
        ((c as u32 + 32) as u32) as char
    } else {
        c
    }
}

pub open spec fn is_digit(c: char) -> bool {
    '0' <= c <= '9'
}

pub open spec fn is_hex_digit(c: char) -> bool {
    ||| '0' <= c <= '9'
    ||| 'a' <= c <= 'f'
    ||| 'A' <= c <= 'F'
}

/// The value of a run of decimal digits.
pub open spec fn digits_value(s: Seq<char>) -> nat
    decreases s.len(),
{
    if s.len() == 0 {
        0
    } else {
        (digits_value(s.drop_last()) * 10 + (s.last() as u32 - 48)) as nat
    }
}

/// The number that a non-empty run of decimal digits stands for.
pub open spec fn magnitude(s: Seq<char>) -> Option<nat> {
    if s.len() > 0 && (forall|i: int| 0 <= i < s.len() ==> is_digit(#[trigger] s[i])) {
        Some(digits_value(s))
    } else {
        None
    }
}

/// The number that an optional `+` and digits stand for.
pub open spec fn unsigned_number(s: Seq<char>) -> Option<nat> {
    if s.len() > 0 && s[0] == '+' {
        magnitude(s.drop_first())
    } else {
        magnitude(s)
    }
}

/// The number that an optional sign and digits stand for.
pub open spec fn signed_number(s: Seq<char>) -> Option<int> {
    if s.len() > 0 && s[0] == '-' {
        match magnitude(s.drop_first()) {
            Some(n) => Some(-(n as int)),
            None => None,
        }
    } else {
        match unsigned_number(s) {
            Some(n) => Some(n as int),
            None => None,
        }
    }
}

/// The 64-bit integer written in `s`.
pub open spec fn as_i64(s: Seq<char>) -> Option<i64> {
    match signed_number(s) {
        Some(n) => if i64::MIN <= n <= i64::MAX {
            Some(n as i64)
        } else {
            None
        },
        None => None,
    }
}

/// The 32-bit integer written in `s`.
pub open spec fn as_i32(s: Seq<char>) -> Option<i32> {
    match signed_number(s) {
        Some(n) => if i32::MIN <= n <= i32::MAX {
            Some(n as i32)
        } else {
            None
        },
        None => None,
    }
}

/// The 16-bit number written in `s`.
pub open spec fn as_u16(s: Seq<char>) -> Option<u16> {
    match unsigned_number(s) {
        Some(n) => if n <= u16::MAX {
            Some(n as u16)
        } else {
            None
        },
        None => None,
    }
}

/// The machine word written in `s`.
pub open spec fn as_usize(s: Seq<char>) -> Option<usize> {
    match unsigned_number(s) {
        Some(n) => if n <= usize::MAX {
            Some(n as usize)
        } else {
            None
        },
        None => None,
    }
}

/// The character of a decimal digit.
pub open spec fn digit(d: nat) -> char {
    ((48 + d) as u32) as char
}

/// `n` in decimal.
pub open spec fn decimal(n: nat) -> Seq<char>
    decreases n,
{
    if n < 10 {
        seq![digit(n)]
    } else {
        decimal(n / 10).push(digit(n % 10))
    }
}

/// `n` in decimal, with a leading `-` where it is negative.
pub open spec fn signed_decimal(n: int) -> Seq<char> {
    if n < 0 {
        seq!['-'] + decimal((-n) as nat)
    } else {
        decimal(n as nat)
    }
}

/// Whether `c` is white space.
pub fn is_whitespace(c: char) -> (r: bool)
    ensures
        r == is_white(c),
{
    let n: u32 = c as u32;
    (0x9 <= n && n <= 0xD) || n == 0x20 || n == 0x85 || n == 0xA0 || n == 0x1680 || (0x2000 <= n
        && n <= 0x200A) || n == 0x2028 || n == 0x2029 || n == 0x202F || n == 0x205F || n == 0x3000
}

/// Whether `c` is a control character.
pub fn is_control(c: char) -> (r: bool)
    ensures
        r == is_ctl(c),
{
    let n: u32 = c as u32;
    n <= 0x1F || (0x7F <= n && n <= 0x9F)
}

/// Whether `c` is a decimal digit.
pub fn is_ascii_digit(c: char) -> (r: bool)
    ensures
        r == is_digit(c),
{
    '0' <= c && c <= '9'
}

/// Whether `c` is a hexadecimal digit.
pub fn is_ascii_hexdigit(c: char) -> (r: bool)
    ensures
        r == is_hex_digit(c),
{
    ('0' <= c && c <= '9') || ('a' <= c && c <= 'f') || ('A' <= c && c <= 'F')
}

/// `c` with the letters `A` to `Z` made small.
pub fn to_ascii_lowercase(c: char) -> (r: char)
    ensures
        r == lower(c),
{
    if 'A' <= c && c <= 'Z' {
        let n: u8 = (c as u32 + 32) as u8;
        n as char
    } else {
        c
    }
}

/// The characters of `s`.
pub fn chars_of(s: &str) -> (r: Vec<char>)
    ensures
        r@ == s@,
{
    let mut v: Vec<char> = Vec::new();
    for c in it: s.chars()
        invariant
            v@ == it.seq().take(it.index() as int),
    {
        v.push(c);
    }
    v
}

/// The string of the characters `v[from..to]`.
pub fn string_of(v: &[char], from: usize, to: usize) -> (r: String)
    requires
        from <= to <= v@.len(),
    ensures
        r@ == v@.subrange(from as int, to as int),
{
    let mut s = String::new();
    for i in from..to
        invariant
            from <= i <= to <= v@.len(),
            s@ == v@.subrange(from as int, i as int),
    {
        s.push(v[i]);
    }
    s
}

/// `s` without the white space at its two ends.
pub fn trim(s: &str) -> (r: String)
    ensures
        r@ == trimmed(s@),
{
    let v = chars_of(s);
    let mut i: usize = 0;
    let mut j: usize = v.len();
    assert(s@.subrange(0, s@.len() as int) == s@);
    while i < j && is_whitespace(v[i])
        invariant
            v@ == s@,
            i <= j == s@.len(),
            trimmed(s@) == trimmed(s@.subrange(i as int, j as int)),
        decreases j - i,
    {
        assert(s@.subrange(i as int, j as int).drop_first() == s@.subrange(i + 1, j as int));
        i += 1;
    }
    while i < j && is_whitespace(v[j - 1])
        invariant
            v@ == s@,
            i <= j <= s@.len(),
            i < j ==> !is_white(s@[i as int]),
            trimmed(s@) == trimmed(s@.subrange(i as int, j as int)),
        decreases j,
    {
        assert(s@.subrange(i as int, j as int).drop_last() == s@.subrange(i as int, j - 1));
        j -= 1;
    }
    string_of(v.as_slice(), i, j)
}

/// The pieces of `s` between the occurrences of `sep`.
pub fn split(s: &str, sep: char) -> (r: Vec<String>)
    ensures
        views(r@) == pieces(s@, sep),
        r@.len() >= 1,
{
    let v = chars_of(s);
    let mut out: Vec<String> = Vec::new();
    let mut cur = String::new();
    assert(views(out@).push(cur@) =~= pieces(s@.take(0), sep));
    for i in 0..v.len()
        invariant
            v@ == s@,
            views(out@).push(cur@) =~= pieces(s@.take(i as int), sep),
    {
        let c = v[i];
        let ghost before = views(out@).push(cur@);
        assert(s@.take(i + 1).drop_last() == s@.take(i as int));
        if c == sep {
            out.push(cur);
            cur = String::new();
            assert(views(out@) =~= before);
        } else {
            cur.push(c);
            assert(views(out@) =~= before.drop_last());
        }
    }
    out.push(cur);
    proof {
        assert(s@.take(s@.len() as int) == s@);
    }
    assert(views(out@) =~= views(out@.drop_last()).push(out@.last()@));
    out
}

/// The parts one after the other, with `sep` between neighbours.
pub fn join(parts: &Vec<String>, sep: &str) -> (r: String)
    ensures
        r@ == joined(views(parts@), sep@),
{
    let mut out = String::new();
    let ghost all = views(parts@);
    assert(all.take(0) =~= Seq::empty());
    for i in 0..parts.len()
        invariant
            all == views(parts@),
            out@ == joined(all.take(i as int), sep@),
    {
        assert(all.take(i + 1).drop_last() =~= all.take(i as int));
        if i > 0 {
            out.append(sep);
        }
        out.append(parts[i].as_str());
        assert(out@ =~= joined(all.take(i + 1), sep@));
    }
    assert(all.take(all.len() as int) =~= all);
    out
}

/// Whether two strings have the same characters.
pub fn same(a: &str, b: &str) -> (r: bool)
    ensures
        r == (a@ == b@),
{
    let x = chars_of(a);
    let y = chars_of(b);
    same_chars(&x, &y)
}

/// Whether two lists of characters are equal.
pub fn same_chars(x: &Vec<char>, y: &Vec<char>) -> (r: bool)
    ensures
        r == (x@ == y@),
{
    if x.len() != y.len() {
        return false;
    }
    for i in 0..x.len()
        invariant
            x@.len() == y@.len(),
            forall|k: int| 0 <= k < i ==> x@[k] == y@[k],
    {
        if x[i] != y[i] {
            assert(x@ != y@);
            return false;
        }
    }
    assert(x@ =~= y@);
    true
}

/// `s` with the letters `A` to `Z` made small.
pub fn lowercase(s: &str) -> (r: String)
    ensures
        r@ == s@.map_values(|c: char| lower(c)),
{
    let v = chars_of(s);
    let mut out = String::new();
    for i in 0..v.len()
        invariant
            v@ == s@,
            out@ =~= s@.take(i as int).map_values(|c: char| lower(c)),
    {
        out.push(to_ascii_lowercase(v[i]));
    }
    assert(s@.take(s@.len() as int) == s@);
    out
}

/// Two texts one after the other.
pub fn concat(a: &str, b: &str) -> (r: String)
    ensures
        r@ == a@ + b@,
{
    let mut s = a.to_owned();
    s.append(b);
    s
}

/// Appends `n` in decimal.
pub fn push_decimal(s: &mut String, n: u128)
    ensures
        final(s)@ == old(s)@ + decimal(n as nat),
    decreases n,
{
    let ghost before = s@;
    if n >= 10 {
        push_decimal(s, n / 10);
    }
    let d: u8 = 48 + (n % 10) as u8;
    s.push(d as char);
    assert(s@ =~= before + decimal(n as nat));
}

/// `n` in decimal.
pub fn decimal_of(n: u128) -> (r: String)
    ensures
        r@ == decimal(n as nat),
{
    let mut s = String::new();
    push_decimal(&mut s, n);
    assert(s@ =~= decimal(n as nat));
    s
}

/// `n` in decimal, with a leading `-` where it is negative.
pub fn signed_decimal_of(n: i64) -> (r: String)
    ensures
        r@ == signed_decimal(n as int),
{
    let mut s = String::new();
    if n < 0 {
        s.push('-');
        let m: i128 = -(n as i128);
        push_decimal(&mut s, m as u128);
    } else {
        push_decimal(&mut s, n as u128);
    }
    assert(s@ =~= signed_decimal(n as int));
    s
}

/// The value of the digits `v[from..]`, where there are any, all are digits, and it fits.
fn read_magnitude(v: &Vec<char>, from: usize) -> (r: Option<u64>)
    requires
        from <= v@.len(),
    ensures
        r == (match magnitude(v@.skip(from as int)) {
            Some(n) => if n <= u64::MAX {
                Some(n as u64)
            } else {
                None::<u64>
            },
            None => None::<u64>,
        }),
{
    let ghost rest = v@.skip(from as int);
    if from == v.len() {
        return None;
    }
    let mut acc: u64 = 0;
    let mut over = false;
    assert(rest.take(0).len() == 0);
    for i in from..v.len()
        invariant
            rest == v@.skip(from as int),
            from <= i <= v@.len(),
            forall|k: int| 0 <= k < i - from ==> is_digit(#[trigger] rest[k]),
            over == (digits_value(rest.take(i - from)) > u64::MAX),
            !over ==> acc == digits_value(rest.take(i - from)),
    {
        let c = v[i];
        assert(rest[i - from] == c);
        if !is_ascii_digit(c) {
            return None;
        }
        let d: u64 = c as u64 - 48;
        assert(rest.take(i + 1 - from).drop_last() =~= rest.take(i - from));
        if !over {
            let next: u128 = acc as u128 * 10 + d as u128;
            if next > u64::MAX as u128 {
                over = true;
            } else {
                acc = next as u64;
            }
        }
    }
    assert(rest.take(rest.len() as int) == rest);
    if over {
        None
    } else {
        Some(acc)
    }
}

/// The 64-bit integer written in `s`.
pub fn parse_i64(s: &str) -> (r: Option<i64>)
    ensures
        r == as_i64(s@),
{
    let v = chars_of(s);
    if v.len() > 0 && v[0] == '-' {
        assert(v@.skip(1) == s@.drop_first());
        match read_magnitude(&v, 1) {
            Some(m) => {
                if m <= 0x8000_0000_0000_0000 {
                    Some((0i128 - m as i128) as i64)
                } else {
                    None
                }
            },
            None => None,
        }
    } else {
        match parse_u64(&v) {
            Some(m) => {
                if m <= 0x7FFF_FFFF_FFFF_FFFF {
                    Some(m as i64)
                } else {
                    None
                }
            },
            None => None,
        }
    }
}

/// The number that an optional `+` and digits stand for, where it fits.
fn parse_u64(v: &Vec<char>) -> (r: Option<u64>)
    ensures
        r == (match unsigned_number(v@) {
            Some(n) => if n <= u64::MAX {
                Some(n as u64)
            } else {
                None::<u64>
            },
            None => None::<u64>,
        }),
{
    if v.len() > 0 && v[0] == '+' {
        assert(v@.skip(1) == v@.drop_first());
        read_magnitude(v, 1)
    } else {
        assert(v@.skip(0) == v@);
        read_magnitude(v, 0)
    }
}

/// The 32-bit integer written in `s`.
pub fn parse_i32(s: &str) -> (r: Option<i32>)
    ensures
        r == as_i32(s@),
{
    match parse_i64(s) {
        Some(n) => {
            if -0x8000_0000 <= n && n <= 0x7FFF_FFFF {
                Some(n as i32)
            } else {
                None
            }
        },
        None => None,
    }
}

/// The 16-bit number written in `s`.
pub fn parse_u16(s: &str) -> (r: Option<u16>)
    ensures
        r == as_u16(s@),
{
    let v = chars_of(s);
    match parse_u64(&v) {
        Some(n) => {
            if n <= 0xFFFF {
                Some(n as u16)
            } else {
                None
            }
        },
        None => None,
    }
}

/// The machine word written in `s`.
pub fn parse_usize(s: &str) -> (r: Option<usize>)
    ensures
        r == as_usize(s@),
{
    let v = chars_of(s);
    match parse_u64(&v) {
        Some(n) => {
            if n <= usize::MAX as u64 {
                Some(n as usize)
            } else {
                None
            }
        },
        None => None,
    }
}

/// The position of the first occurrence of `pat` in `s`.
pub open spec fn position(s: Seq<char>, pat: Seq<char>) -> Option<nat>
    decreases s.len(),
{
    if s.len() < pat.len() {
        None
    } else if s.take(pat.len() as int) == pat {
        Some(0)
    } else if s.len() == 0 {
        None
    } else {
        match position(s.drop_first(), pat) {
            Some(n) => Some(n + 1),
            None => None,
        }
    }
}

/// What stands in front of the first occurrence of `pat`, and what stands after it.
pub open spec fn cut(s: Seq<char>, pat: Seq<char>) -> Option<(Seq<char>, Seq<char>)> {
    match position(s, pat) {
        Some(n) => Some((s.take(n as int), s.skip((n + pat.len()) as int))),
        None => None,
    }
}

/// The characters of an optional pair of strings.
pub open spec fn opt_pair(p: Option<(String, String)>) -> Option<(Seq<char>, Seq<char>)> {
    match p {
        Some((a, b)) => Some((a@, b@)),
        None => None,
    }
}

/// Whether `pat` stands at `v[at..]`.
fn stands_at(v: &Vec<char>, at: usize, pat: &Vec<char>) -> (r: bool)
    requires
        at + pat@.len() <= v@.len(),
    ensures
        r == (v@.subrange(at as int, at + pat@.len()) == pat@),
{
    let ghost piece = v@.subrange(at as int, at + pat@.len());
    for i in 0..pat.len()
        invariant
            at + pat@.len() <= v.len(),
            piece == v@.subrange(at as int, at + pat@.len()),
            forall|k: int| 0 <= k < i ==> piece[k] == pat@[k],
    {
        if v[at + i] != pat[i] {
            assert(piece[i as int] != pat@[i as int]);
            return false;
        }
    }
    assert(piece =~= pat@);
    true
}

/// What stands in front of the first occurrence of `pat` in `s`, and what stands after it.
pub fn split_once(s: &str, pat: &str) -> (r: Option<(String, String)>)
    ensures
        opt_pair(r) == cut(s@, pat@),
{
    let v = chars_of(s);
    let p = chars_of(pat);
    assert(s@.skip(0) =~= s@);
    let mut i: usize = 0;
    while v.len() - i >= p.len()
        invariant
            v@ == s@,
            p@ == pat@,
            i <= v@.len(),
            position(s@, pat@) == (match position(s@.skip(i as int), pat@) {
                Some(n) => Some((n + i) as nat),
                None => None::<nat>,
            }),
        decreases v@.len() - i,
    {
        let ghost rest = s@.skip(i as int);
        assert(rest.take(pat@.len() as int) =~= v@.subrange(i as int, i + p@.len()));
        if stands_at(&v, i, &p) {
            let after: usize = i + p.len();
            let a = string_of(v.as_slice(), 0, i);
            let b = string_of(v.as_slice(), after, v.len());
            assert(a@ =~= s@.take(i as int));
            assert(b@ =~= s@.skip((i + pat@.len()) as int));
            return Some((a, b));
        }
        if i == v.len() {
            return None;
        }
        assert(rest.drop_first() =~= s@.skip(i + 1));
        i += 1;
    }
    None
}

/// `s` without its white space.
pub open spec fn squeezed(s: Seq<char>) -> Seq<char> {
    s.filter(|c: char| !is_white(c))
}

/// `s` without its white space.
pub fn without_whitespace(s: &str) -> (r: String)
    ensures
        r@ == squeezed(s@),
{
    let v = chars_of(s);
    let mut out = String::new();
    let ghost keep = |c: char| !is_white(c);
    assert(s@.take(0).filter(keep) =~= Seq::empty()) by {
        reveal(Seq::filter);
    }
    for i in 0..v.len()
        invariant
            v@ == s@,
            keep == (|c: char| !is_white(c)),
            out@ == s@.take(i as int).filter(keep),
    {
        assert(s@.take(i + 1).drop_last() =~= s@.take(i as int));
        reveal(Seq::filter);
        if !is_whitespace(v[i]) {
            out.push(v[i]);
        }
    }
    assert(s@.take(s@.len() as int) =~= s@);
    out
}

// ---- order ----

/// `a` comes before `b` in a dictionary by code points.
pub open spec fn comes_before(a: Seq<char>, b: Seq<char>) -> bool
    decreases a.len(),
{
    if b.len() == 0 {
        false
    } else if a.len() == 0 {
        true
    } else if a[0] != b[0] {
        a[0] < b[0]
    } else {
        comes_before(a.drop_first(), b.drop_first())
    }
}

/// Whether `a` comes before `b` in a dictionary by code points.
pub fn is_before(a: &str, b: &str) -> (r: bool)
    ensures
        r == comes_before(a@, b@),
{
    let x = chars_of(a);
    let y = chars_of(b);
    let mut i: usize = 0;
    assert(a@.skip(0) =~= a@);
    assert(b@.skip(0) =~= b@);
    while i < x.len() && i < y.len()
        invariant
            x@ == a@,
            y@ == b@,
            i <= x@.len(),
            i <= y@.len(),
            comes_before(a@, b@) == comes_before(a@.skip(i as int), b@.skip(i as int)),
        decreases x@.len() - i,
    {
        let ghost p = a@.skip(i as int);
        let ghost q = b@.skip(i as int);
        assert(p[0] == x@[i as int] && q[0] == y@[i as int]);
        if x[i] != y[i] {
            return x[i] < y[i];
        }
        assert(p.drop_first() =~= a@.skip(i + 1));
        assert(q.drop_first() =~= b@.skip(i + 1));
        i += 1;
    }
    x.len() < y.len()
}

/// Of two different texts one comes before the other.
pub proof fn lemma_one_before(a: Seq<char>, b: Seq<char>)
    ensures
        a == b || comes_before(a, b) || comes_before(b, a),
        comes_before(a, b) ==> a != b && !comes_before(b, a),
    decreases a.len(),
{
    if a.len() == 0 || b.len() == 0 {
        if a.len() == b.len() {
            assert(a =~= b);
        }
    } else if a[0] == b[0] {
        lemma_one_before(a.drop_first(), b.drop_first());
        if a.drop_first() == b.drop_first() {
            assert(a =~= seq![a[0]] + a.drop_first());
            assert(b =~= seq![b[0]] + b.drop_first());
            assert(a =~= b);
        }
    }
}

/// What comes before something that comes before a third comes before the third.
pub proof fn lemma_before_chain(a: Seq<char>, b: Seq<char>, c: Seq<char>)
    requires
        comes_before(a, b),
        comes_before(b, c),
    ensures
        comes_before(a, c),
    decreases a.len(),
{
    if a.len() > 0 && a[0] == b[0] && b[0] == c[0] {
        lemma_before_chain(a.drop_first(), b.drop_first(), c.drop_first());
    }
}

// ---- laws ----

/// A number in decimal has at least one digit and nothing else, and the digits have its value.
pub proof fn decimal_is_digits(n: nat)
    ensures
        decimal(n).len() >= 1,
        forall|i: int| 0 <= i < decimal(n).len() ==> is_digit(#[trigger] decimal(n)[i]),
        digits_value(decimal(n)) == n,
    decreases n,
{
    if n < 10 {
        assert(decimal(n).drop_last() =~= Seq::empty());
        assert(digits_value(decimal(n).drop_last()) == 0);
        assert(decimal(n).last() == digit(n));
        assert(digit(n) as u32 == 48 + n);
    } else {
        decimal_is_digits(n / 10);
        assert(decimal(n).drop_last() =~= decimal(n / 10));
        assert(digit(n % 10) as u32 == 48 + n % 10);
        assert forall|i: int| 0 <= i < decimal(n).len() implies is_digit(
            #[trigger] decimal(n)[i],
        ) by {
            if i < decimal(n).len() - 1 {
                assert(decimal(n)[i] == decimal(n / 10)[i]);
            }
        }
    }
}

/// A number in decimal is read as that number, and has no white space at its ends.
pub proof fn decimal_round_trip(n: int)
    ensures
        signed_number(signed_decimal(n)) == Some(n),
        trimmed(signed_decimal(n)) == signed_decimal(n),
        n >= 0 ==> unsigned_number(signed_decimal(n)) == Some(n as nat),
{
    if n < 0 {
        let d = decimal((-n) as nat);
        decimal_is_digits((-n) as nat);
        let s = signed_decimal(n);
        assert(s.drop_first() =~= d);
        assert(s[0] == '-');
        assert(is_digit(d[d.len() - 1]));
        assert(s.last() == d[d.len() - 1]);
    } else {
        let d = decimal(n as nat);
        decimal_is_digits(n as nat);
        assert(is_digit(d[0]));
        assert(is_digit(d[d.len() - 1]));
    }
}

/// A text without white space at its ends is what is left of it.
pub proof fn trimming_keeps_tight_text(s: Seq<char>)
    requires
        s.len() > 0 ==> !is_white(s.first()) && !is_white(s.last()),
    ensures
        trimmed(s) == s,
{
}

proof fn lemma_pieces_nonempty(s: Seq<char>, sep: char)
    ensures
        pieces(s, sep).len() >= 1,
    decreases s.len(),
{
    if s.len() > 0 {
        lemma_pieces_nonempty(s.drop_last(), sep);
    }
}

/// Text without the separator makes the last piece longer.
proof fn lemma_pieces_append(s: Seq<char>, t: Seq<char>, sep: char)
    requires
        !t.contains(sep),
    ensures
        pieces(s + t, sep) == pieces(s, sep).update(
            pieces(s, sep).len() - 1,
            pieces(s, sep).last() + t,
        ),
        pieces(s, sep).len() >= 1,
    decreases t.len(),
{
    lemma_pieces_nonempty(s, sep);
    let p = pieces(s, sep);
    if t.len() == 0 {
        assert(s + t =~= s);
        assert(p.last() + t =~= p.last());
        assert(p.update(p.len() - 1, p.last() + t) =~= p);
    } else {
        let u = t.drop_last();
        assert(!u.contains(sep)) by {
            if u.contains(sep) {
                let k = choose|k: int| 0 <= k < u.len() && u[k] == sep;
                assert(t[k] == sep);
            }
        }
        lemma_pieces_append(s, u, sep);
        assert((s + t).drop_last() =~= s + u);
        assert((s + t).last() == t.last());
        assert(t.contains(t.last())) by {
            assert(t[t.len() - 1] == t.last());
        }
        let q = pieces(s + u, sep);
        assert(q.last() == p.last() + u);
        assert(q.last().push(t.last()) =~= p.last() + t);
        assert(pieces(s + t, sep) =~= p.update(p.len() - 1, p.last() + t));
    }
}

proof fn lemma_joined_push(parts: Seq<Seq<char>>, t: Seq<char>, sep: Seq<char>)
    requires
        parts.len() >= 1,
    ensures
        joined(parts.update(parts.len() - 1, parts.last() + t), sep) == joined(parts, sep) + t,
{
    let p = parts.update(parts.len() - 1, parts.last() + t);
    if parts.len() == 1 {
        assert(joined(p, sep) =~= joined(parts, sep) + t);
    } else {
        assert(p.drop_last() =~= parts.drop_last());
        assert(joined(p, sep) =~= joined(parts, sep) + t);
    }
}

/// Joining undoes splitting.
pub proof fn joining_undoes_splitting(s: Seq<char>, sep: char)
    ensures
        joined(pieces(s, sep), seq![sep]) == s,
    decreases s.len(),
{
    if s.len() == 0 {
        assert(joined(pieces(s, sep), seq![sep]) =~= s);
    } else {
        let before = pieces(s.drop_last(), sep);
        joining_undoes_splitting(s.drop_last(), sep);
        lemma_pieces_nonempty(s.drop_last(), sep);
        if s.last() == sep {
            assert(pieces(s, sep).drop_last() =~= before);
            assert(joined(pieces(s, sep), seq![sep]) =~= s);
        } else {
            lemma_joined_push(before, seq![s.last()], seq![sep]);
            assert(before.last() + seq![s.last()] =~= before.last().push(s.last()));
            assert(joined(pieces(s, sep), seq![sep]) =~= s);
        }
    }
}

/// Splitting undoes joining, where no part holds the separator.
pub proof fn splitting_undoes_joining(parts: Seq<Seq<char>>, sep: char)
    requires
        parts.len() >= 1,
        forall|i: int| 0 <= i < parts.len() ==> !(#[trigger] parts[i]).contains(sep),
    ensures
        pieces(joined(parts, seq![sep]), sep) == parts,
    decreases parts.len(),
{
    let none = Seq::<char>::empty();
    if parts.len() == 1 {
        assert(!parts[0].contains(sep));
        lemma_pieces_append(none, parts[0], sep);
        assert(none + parts[0] =~= parts[0]);
        assert(pieces(none, sep) =~= seq![none]);
        assert(pieces(parts[0], sep) =~= parts);
    } else {
        let before = parts.drop_last();
        assert forall|i: int| 0 <= i < before.len() implies !(#[trigger] before[i]).contains(
            sep,
        ) by {
            assert(before[i] == parts[i]);
        }
        splitting_undoes_joining(before, sep);
        let s = joined(before, seq![sep]) + seq![sep];
        assert(s.drop_last() =~= joined(before, seq![sep]));
        assert(pieces(s, sep) =~= before.push(none));
        assert(!parts[parts.len() - 1].contains(sep));
        lemma_pieces_append(s, parts.last(), sep);
        assert(none + parts.last() =~= parts.last());
        assert(pieces(joined(parts, seq![sep]), sep) =~= parts);
    }
}

/// White space around a text is taken away, and nothing else.
pub proof fn trimming_takes_white_space_away(a: Seq<char>, s: Seq<char>, b: Seq<char>)
    requires
        s.len() > 0 ==> !is_white(s.first()) && !is_white(s.last()),
        forall|i: int| 0 <= i < a.len() ==> is_white(#[trigger] a[i]),
        forall|i: int| 0 <= i < b.len() ==> is_white(#[trigger] b[i]),
    ensures
        trimmed(a + s + b) == s,
    decreases a.len() + b.len(),
{
    let t = a + s + b;
    if a.len() > 0 {
        let rest = a.drop_first();
        assert(t.first() == a[0]);
        assert(t.drop_first() =~= rest + s + b);
        assert forall|i: int| 0 <= i < rest.len() implies is_white(#[trigger] rest[i]) by {
            assert(rest[i] == a[i + 1]);
        }
        trimming_takes_white_space_away(rest, s, b);
    } else if b.len() > 0 {
        let rest = b.drop_last();
        assert(t.last() == b[b.len() - 1]);
        assert(t.drop_last() =~= a + s + rest);
        assert forall|i: int| 0 <= i < rest.len() implies is_white(#[trigger] rest[i]) by {
            assert(rest[i] == b[i]);
        }
        trimming_takes_white_space_away(a, s, rest);
        if s.len() > 0 {
            assert(t.first() == s.first());
        } else {
            assert(t =~= b);
            if is_white(t.first()) && b.len() > 1 {
                let front = b.drop_first();
                assert forall|i: int| 0 <= i < front.len() implies is_white(
                    #[trigger] front[i],
                ) by {
                    assert(front[i] == b[i + 1]);
                }
                trimming_takes_white_space_away(a, s, front);
                assert(t.drop_first() =~= a + s + front);
            } else {
                assert(t.drop_first() =~= s);
                assert(trimmed(s) =~= s);
            }
        }
    } else {
        assert(t =~= s);
    }
}

/// Squeezing keeps a text without white space as it is, and takes each white space out.
pub proof fn squeezing_takes_white_space_out(s: Seq<char>, c: char)
    ensures
        is_white(c) ==> squeezed(s.push(c)) == squeezed(s),
        !is_white(c) ==> squeezed(s.push(c)) == squeezed(s).push(c),
        squeezed(Seq::empty()).len() == 0,
{
    reveal(Seq::filter);
    assert(s.push(c).drop_last() =~= s);
}

/// A text is cut at the first place where the pattern stands.
pub proof fn texts_are_cut_at_the_first_place(a: Seq<char>, pat: Seq<char>, b: Seq<char>)
    requires
        pat.len() > 0,
        forall|i: int| 0 <= i < a.len() ==> (#[trigger] a[i]) != pat[0],
    ensures
        cut(a + pat + b, pat) == Some((a, b)),
    decreases a.len(),
{
    lemma_position(a, pat, b);
    let s = a + pat + b;
    assert(s.take(a.len() as int) =~= a);
    assert(s.skip((a.len() + pat.len()) as int) =~= b);
}

proof fn lemma_position(a: Seq<char>, pat: Seq<char>, b: Seq<char>)
    requires
        pat.len() > 0,
        forall|i: int| 0 <= i < a.len() ==> (#[trigger] a[i]) != pat[0],
    ensures
        position(a + pat + b, pat) == Some(a.len()),
    decreases a.len(),
{
    let s = a + pat + b;
    if a.len() == 0 {
        assert(s.take(pat.len() as int) =~= pat);
    } else {
        let rest = a.drop_first();
        assert(s.take(pat.len() as int)[0] == a[0]);
        assert(s.drop_first() =~= rest + pat + b);
        assert forall|i: int| 0 <= i < rest.len() implies (#[trigger] rest[i]) != pat[0] by {
            assert(rest[i] == a[i + 1]);
        }
        lemma_position(rest, pat, b);
    }
}

/// A pattern that does not stand in a text cuts nothing.
pub proof fn texts_without_the_pattern_stay_whole(s: Seq<char>, pat: Seq<char>)
    requires
        pat.len() > 0,
        forall|i: int| 0 <= i < s.len() ==> (#[trigger] s[i]) != pat[0],
    ensures
        cut(s, pat) is None,
    decreases s.len(),
{
    if s.len() >= pat.len() {
        assert(s.take(pat.len() as int)[0] == s[0]);
        let rest = s.drop_first();
        assert forall|i: int| 0 <= i < rest.len() implies (#[trigger] rest[i]) != pat[0] by {
            assert(rest[i] == s[i + 1]);
        }
        texts_without_the_pattern_stay_whole(rest, pat);
    }
}

/// No piece of a text holds what the text was split at.
pub proof fn pieces_hold_no_separator(s: Seq<char>, sep: char, i: int)
    requires
        0 <= i < pieces(s, sep).len(),
    ensures
        !pieces(s, sep)[i].contains(sep),
    decreases s.len(),
{
    if s.len() > 0 {
        let before = pieces(s.drop_last(), sep);
        lemma_pieces_nonempty(s.drop_last(), sep);
        if i < before.len() {
            pieces_hold_no_separator(s.drop_last(), sep, i);
        }
        if s.last() != sep && i == before.len() - 1 {
            let p = pieces(s, sep)[i];
            if p.contains(sep) {
                let k = choose|k: int| 0 <= k < p.len() && p[k] == sep;
                assert(before[i][k] == sep);
            }
        }
    }
}

/// Control characters are those below the space and those from delete up to the no-break space.
pub proof fn control_characters_are_known(c: char)
    ensures
        is_ctl(c) <==> (c as u32) < 0x20 || 0x7F <= (c as u32) < 0xA0,
        is_white(' ') && is_white('\t') && is_white('\n') && !is_white('a'),
{
}

} // verus!
