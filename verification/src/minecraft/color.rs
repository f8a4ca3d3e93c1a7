//! Text colours: the sixteen named ones, 24-bit ones written as `#RRGGBB`, and the way from the
//! latter to the nearest of the former for clients that only know names.
//!
//! A shadow is the colour with each channel divided by four; gold is the exception among the named
//! colours, its shadow is `#3E2A00`.

use vstd::prelude::*;
use crate::minecraft::text;

verus! {

/// How many named colours there are.
pub const NAMED_COUNT: usize = 16;

/// A named colour: the character of its code, its name, its value and the value of its shadow.
#[derive(Clone, Copy, Debug)]
pub struct NamedColor {
    pub code: char,
    pub name: &'static str,
    pub rgb: (u8, u8, u8),
    pub shadow: (u8, u8, u8),
}

/// The character that selects the named colour `i`.
pub open spec fn code_of(i: int) -> char {
    if i == 0 {
        '0'
    } else if i == 1 {
        '1'
    } else if i == 2 {
        '2'
    } else if i == 3 {
        '3'
    } else if i == 4 {
        '4'
    } else if i == 5 {
        '5'
    } else if i == 6 {
        '6'
    } else if i == 7 {
        '7'
    } else if i == 8 {
        '8'
    } else if i == 9 {
        '9'
    } else if i == 10 {
        'a'
    } else if i == 11 {
        'b'
    } else if i == 12 {
        'c'
    } else if i == 13 {
        'd'
    } else if i == 14 {
        'e'
    } else {
        'f'
    }
}

/// The name of the named colour `i`.
pub open spec fn name_of(i: int) -> Seq<char> {
    if i == 0 {
        "black"@
    } else if i == 1 {
        "dark_blue"@
    } else if i == 2 {
        "dark_green"@
    } else if i == 3 {
        "dark_aqua"@
    } else if i == 4 {
        "dark_red"@
    } else if i == 5 {
        "dark_purple"@
    } else if i == 6 {
        "gold"@
    } else if i == 7 {
        "gray"@
    } else if i == 8 {
        "dark_gray"@
    } else if i == 9 {
        "blue"@
    } else if i == 10 {
        "green"@
    } else if i == 11 {
        "aqua"@
    } else if i == 12 {
        "red"@
    } else if i == 13 {
        "light_purple"@
    } else if i == 14 {
        "yellow"@
    } else {
        "white"@
    }
}

/// The value of the named colour `i`.
pub open spec fn rgb_of(i: int) -> (u8, u8, u8) {
    if i == 0 {
        (0, 0, 0)
    } else if i == 1 {
        (0, 0, 170)
    } else if i == 2 {
        (0, 170, 0)
    } else if i == 3 {
        (0, 170, 170)
    } else if i == 4 {
        (170, 0, 0)
    } else if i == 5 {
        (170, 0, 170)
    } else if i == 6 {
        (255, 170, 0)
    } else if i == 7 {
        (170, 170, 170)
    } else if i == 8 {
        (85, 85, 85)
    } else if i == 9 {
        (85, 85, 255)
    } else if i == 10 {
        (85, 255, 85)
    } else if i == 11 {
        (85, 255, 255)
    } else if i == 12 {
        (255, 85, 85)
    } else if i == 13 {
        (255, 85, 255)
    } else if i == 14 {
        (255, 255, 85)
    } else {
        (255, 255, 255)
    }
}

/// The shadow of the named colour `i`.
pub open spec fn shadow_of(i: int) -> (u8, u8, u8) {
    if i == 0 {
        (0, 0, 0)
    } else if i == 1 {
        (0, 0, 42)
    } else if i == 2 {
        (0, 42, 0)
    } else if i == 3 {
        (0, 42, 42)
    } else if i == 4 {
        (42, 0, 0)
    } else if i == 5 {
        (42, 0, 42)
    } else if i == 6 {
        (62, 42, 0)
    } else if i == 7 {
        (42, 42, 42)
    } else if i == 8 {
        (21, 21, 21)
    } else if i == 9 {
        (21, 21, 63)
    } else if i == 10 {
        (21, 63, 21)
    } else if i == 11 {
        (21, 63, 63)
    } else if i == 12 {
        (63, 21, 21)
    } else if i == 13 {
        (63, 21, 63)
    } else if i == 14 {
        (63, 63, 21)
    } else {
        (63, 63, 63)
    }
}

/// The named colours, in the order of their codes.
pub fn named(i: usize) -> (r: NamedColor)
    requires
        i < NAMED_COUNT,
    ensures
        r.code == code_of(i as int),
        r.name@ == name_of(i as int),
        r.rgb == rgb_of(i as int),
        r.shadow == shadow_of(i as int),
{
    if i == 0 {
        NamedColor { code: '0', name: "black", rgb: (0, 0, 0), shadow: (0, 0, 0) }
    } else if i == 1 {
        NamedColor { code: '1', name: "dark_blue", rgb: (0, 0, 170), shadow: (0, 0, 42) }
    } else if i == 2 {
        NamedColor { code: '2', name: "dark_green", rgb: (0, 170, 0), shadow: (0, 42, 0) }
    } else if i == 3 {
        NamedColor { code: '3', name: "dark_aqua", rgb: (0, 170, 170), shadow: (0, 42, 42) }
    } else if i == 4 {
        NamedColor { code: '4', name: "dark_red", rgb: (170, 0, 0), shadow: (42, 0, 0) }
    } else if i == 5 {
        NamedColor { code: '5', name: "dark_purple", rgb: (170, 0, 170), shadow: (42, 0, 42) }
    } else if i == 6 {
        NamedColor { code: '6', name: "gold", rgb: (255, 170, 0), shadow: (62, 42, 0) }
    } else if i == 7 {
        NamedColor { code: '7', name: "gray", rgb: (170, 170, 170), shadow: (42, 42, 42) }
    } else if i == 8 {
        NamedColor { code: '8', name: "dark_gray", rgb: (85, 85, 85), shadow: (21, 21, 21) }
    } else if i == 9 {
        NamedColor { code: '9', name: "blue", rgb: (85, 85, 255), shadow: (21, 21, 63) }
    } else if i == 10 {
        NamedColor { code: 'a', name: "green", rgb: (85, 255, 85), shadow: (21, 63, 21) }
    } else if i == 11 {
        NamedColor { code: 'b', name: "aqua", rgb: (85, 255, 255), shadow: (21, 63, 63) }
    } else if i == 12 {
        NamedColor { code: 'c', name: "red", rgb: (255, 85, 85), shadow: (63, 21, 21) }
    } else if i == 13 {
        NamedColor { code: 'd', name: "light_purple", rgb: (255, 85, 255), shadow: (63, 21, 63) }
    } else if i == 14 {
        NamedColor { code: 'e', name: "yellow", rgb: (255, 255, 85), shadow: (63, 63, 21) }
    } else {
        NamedColor { code: 'f', name: "white", rgb: (255, 255, 255), shadow: (63, 63, 63) }
    }
}

/// A colour: a named one, by its place in the list, or a 24-bit one.
#[derive(Clone, Copy, Debug, PartialEq, Eq, Structural)]
pub enum Color {
    Named(usize),
    Rgb(u8, u8, u8),
}

/// The position of a code character among the named colours; capital letters count as small ones.
pub open spec fn code_index(c: char) -> Option<usize> {
    let l = text::lower(c);
    if '0' <= l <= '9' {
        Some((l as u32 - 48) as usize)
    } else if 'a' <= l <= 'f' {
        Some((l as u32 - 87) as usize)
    } else {
        None
    }
}

/// The first named colour with this name, from position `from` on.
pub open spec fn name_index(name: Seq<char>, from: nat) -> Option<usize>
    decreases NAMED_COUNT - from,
{
    if from >= NAMED_COUNT {
        None
    } else if name_of(from as int) == name {
        Some(from as usize)
    } else {
        name_index(name, from + 1)
    }
}

/// The value of a hexadecimal digit.
pub open spec fn hex_digit_value(c: char) -> nat {
    let n = c as u32;
    if c <= '9' {
        (n - 48) as nat
    } else if c <= 'F' {
        (n - 55) as nat
    } else {
        (n - 87) as nat
    }
}

/// The value of a run of hexadecimal digits.
pub open spec fn hex_value(s: Seq<char>) -> nat
    decreases s.len(),
{
    if s.len() == 0 {
        0
    } else {
        hex_value(s.drop_last()) * 16 + hex_digit_value(s.last())
    }
}

/// The three channels of a 24-bit number.
pub open spec fn channels(n: nat) -> (u8, u8, u8) {
    ((n / 0x1_0000 % 256) as u8, (n / 256 % 256) as u8, (n % 256) as u8)
}

/// The channels that one to six hexadecimal digits stand for; missing leading digits are zero.
pub open spec fn hex_rgb(s: Seq<char>) -> Option<(u8, u8, u8)> {
    if 1 <= s.len() <= 6 && (forall|i: int| 0 <= i < s.len() ==> text::is_hex_digit(#[trigger] s[i])) {
        Some(channels(hex_value(s)))
    } else {
        None
    }
}

/// The colour that a `color` field names.
pub open spec fn parsed(s: Seq<char>) -> Option<Color> {
    if s.len() > 0 && s[0] == '#' {
        match hex_rgb(s.drop_first()) {
            Some(c) => Some(Color::Rgb(c.0, c.1, c.2)),
            None => None,
        }
    } else {
        match name_index(s, 0) {
            Some(i) => Some(Color::Named(i)),
            None => None,
        }
    }
}

/// The square of the distance between two colours.
pub open spec fn distance(a: (u8, u8, u8), b: (u8, u8, u8)) -> int {
    (a.0 - b.0) * (a.0 - b.0) + (a.1 - b.1) * (a.1 - b.1) + (a.2 - b.2) * (a.2 - b.2)
}

/// The position of the nearest among the first `n` named colours, the first of several.
pub open spec fn nearest(c: (u8, u8, u8), n: nat) -> int
    decreases n,
{
    if n <= 1 {
        0
    } else {
        let best = nearest(c, (n - 1) as nat);
        if distance(c, rgb_of(n - 1)) < distance(c, rgb_of(best)) {
            n - 1
        } else {
            best
        }
    }
}

impl Color {
    /// A named colour is one of the list.
    pub open spec fn wf(self) -> bool {
        self matches Color::Named(i) ==> i < NAMED_COUNT
    }

    /// The value of the colour.
    pub open spec fn value(self) -> (u8, u8, u8) {
        match self {
            Color::Named(i) => rgb_of(i as int),
            Color::Rgb(r, g, b) => (r, g, b),
        }
    }

    /// The value of the colour's shadow.
    pub open spec fn shadow_value(self) -> (u8, u8, u8) {
        match self {
            Color::Named(i) => shadow_of(i as int),
            Color::Rgb(r, g, b) => ((r / 4) as u8, (g / 4) as u8, (b / 4) as u8),
        }
    }

    /// The nearest named colour.
    pub open spec fn as_named(self) -> Color {
        match self {
            Color::Named(_) => self,
            Color::Rgb(r, g, b) => Color::Named(nearest((r, g, b), NAMED_COUNT as nat) as usize),
        }
    }

    /// The value of the colour.
    pub fn rgb(self) -> (r: (u8, u8, u8))
        requires
            self.wf(),
        ensures
            r == self.value(),
    {
        match self {
            Color::Named(i) => named(i).rgb,
            Color::Rgb(r, g, b) => (r, g, b),
        }
    }

    /// The value of the colour's shadow.
    pub fn shadow_rgb(self) -> (r: (u8, u8, u8))
        requires
            self.wf(),
        ensures
            r == self.shadow_value(),
    {
        match self {
            Color::Named(i) => named(i).shadow,
            Color::Rgb(r, g, b) => (r / 4, g / 4, b / 4),
        }
    }

    /// The name of a named colour.
    pub fn name(self) -> (r: Option<&'static str>)
        requires
            self.wf(),
        ensures
            match self {
                Color::Named(i) => r is Some && r->0@ == name_of(i as int),
                Color::Rgb(_, _, _) => r is None,
            },
    {
        match self {
            Color::Named(i) => Some(named(i).name),
            Color::Rgb(_, _, _) => None,
        }
    }

    /// The nearest named colour; a named colour stays itself.
    pub fn downsample(self) -> (r: Color)
        ensures
            r == self.as_named(),
            self is Rgb ==> r.wf(),
    {
        match self {
            Color::Named(_) => self,
            Color::Rgb(r, g, b) => Color::Named(nearest_named((r, g, b))),
        }
    }
}

/// The position of a code character among the named colours.
pub fn index_by_code(c: char) -> (r: Option<usize>)
    ensures
        r == code_index(c),
        r matches Some(i) ==> i < NAMED_COUNT && code_of(i as int) == text::lower(c),
        r is None ==> forall|i: int|
            0 <= i < NAMED_COUNT ==> #[trigger] code_of(i) != text::lower(c),
{
    let l = text::to_ascii_lowercase(c);
    if '0' <= l && l <= '9' {
        Some((l as u32 - 48) as usize)
    } else if 'a' <= l && l <= 'f' {
        Some((l as u32 - 87) as usize)
    } else {
        None
    }
}

/// The named colour with this name.
pub fn by_name(name: &str) -> (r: Option<Color>)
    ensures
        r == (match name_index(name@, 0) {
            Some(i) => Some(Color::Named(i)),
            None => None::<Color>,
        }),
        r matches Some(c) ==> c.wf(),
{
    for i in 0..NAMED_COUNT
        invariant
            name_index(name@, 0) == name_index(name@, i as nat),
    {
        if text::same(named(i).name, name) {
            return Some(Color::Named(i));
        }
    }
    None
}

/// The colour of a `color` field: `#` and hexadecimal digits, or a name.
pub fn parse(value: &str) -> (r: Option<Color>)
    ensures
        r == parsed(value@),
        r matches Some(c) ==> c.wf(),
{
    let v = text::chars_of(value);
    if v.len() > 0 && v[0] == '#' {
        let hex = text::string_of(v.as_slice(), 1, v.len());
        assert(hex@ =~= value@.drop_first());
        match parse_hex(hex.as_str()) {
            Some((r, g, b)) => Some(Color::Rgb(r, g, b)),
            None => None,
        }
    } else {
        by_name(value)
    }
}

/// The channels that one to six hexadecimal digits stand for.
pub fn parse_hex(hex: &str) -> (r: Option<(u8, u8, u8)>)
    ensures
        r == hex_rgb(hex@),
{
    let v = text::chars_of(hex);
    if v.len() < 1 || v.len() > 6 {
        return None;
    }
    let mut n: u32 = 0;
    assert(hex@.take(0) =~= Seq::<char>::empty());
    for i in 0..v.len()
        invariant
            v@ == hex@,
            v@.len() <= 6,
            forall|k: int| 0 <= k < i ==> text::is_hex_digit(#[trigger] v@[k]),
            n == hex_value(v@.take(i as int)),
            n < pow16(i as nat),
    {
        let c = v[i];
        if !text::is_ascii_hexdigit(c) {
            return None;
        }
        let d: u32 = if c <= '9' {
            c as u32 - 48
        } else if c <= 'F' {
            c as u32 - 55
        } else {
            c as u32 - 87
        };
        proof {
            assert(v@.take(i + 1).drop_last() =~= v@.take(i as int));
            reveal_with_fuel(pow16, 7);
        }
        n = n * 16 + d;
    }
    assert(v@.take(v@.len() as int) =~= v@);
    Some(((n / 0x1_0000 % 256) as u8, (n / 256 % 256) as u8, (n % 256) as u8))
}

/// 16 to the power `n`.
pub open spec fn pow16(n: nat) -> nat
    decreases n,
{
    if n == 0 {
        1
    } else {
        pow16((n - 1) as nat) * 16
    }
}

/// The square of the distance between two channel values.
fn channel_distance(a: u8, b: u8) -> (r: u32)
    ensures
        r == (a - b) * (a - b),
        r <= 65025,
{
    let d: i32 = a as i32 - b as i32;
    assert(0 <= d * d <= 65025) by (nonlinear_arith)
        requires
            -255 <= d <= 255,
    ;
    (d * d) as u32
}

/// The position of the named colour nearest to a value, the first of several.
pub fn nearest_named(c: (u8, u8, u8)) -> (r: usize)
    ensures
        r == nearest(c, NAMED_COUNT as nat),
        r < NAMED_COUNT,
{
    let mut best: usize = 0;
    let first = named(0).rgb;
    let mut best_d: u32 = channel_distance(c.0, first.0) + channel_distance(c.1, first.1)
        + channel_distance(c.2, first.2);
    for i in 1..NAMED_COUNT
        invariant
            best < NAMED_COUNT,
            best == nearest(c, i as nat),
            best_d == distance(c, rgb_of(best as int)),
    {
        let n = named(i).rgb;
        let d: u32 = channel_distance(c.0, n.0) + channel_distance(c.1, n.1) + channel_distance(
            c.2,
            n.2,
        );
        if d < best_d {
            best_d = d;
            best = i;
        }
    }
    best
}

proof fn lemma_nearest(c: (u8, u8, u8), n: nat)
    requires
        n >= 1,
    ensures
        0 <= nearest(c, n) < n,
        forall|j: int|
            0 <= j < n ==> distance(c, rgb_of(nearest(c, n))) <= distance(c, #[trigger] rgb_of(j)),
        forall|j: int|
            0 <= j < nearest(c, n) ==> distance(c, rgb_of(nearest(c, n))) < distance(
                c,
                #[trigger] rgb_of(j),
            ),
    decreases n,
{
    if n > 1 {
        lemma_nearest(c, (n - 1) as nat);
    }
}

/// No named colour is nearer to a value than the one chosen for it, and each one before that is
/// farther away.
pub proof fn nearest_is_nearest(c: (u8, u8, u8))
    ensures
        0 <= nearest(c, NAMED_COUNT as nat) < NAMED_COUNT,
        forall|j: int|
            0 <= j < NAMED_COUNT ==> distance(c, rgb_of(nearest(c, NAMED_COUNT as nat)))
                <= distance(c, #[trigger] rgb_of(j)),
        forall|j: int|
            0 <= j < nearest(c, NAMED_COUNT as nat) ==> distance(
                c,
                rgb_of(nearest(c, NAMED_COUNT as nat)),
            ) < distance(c, #[trigger] rgb_of(j)),
{
    lemma_nearest(c, NAMED_COUNT as nat);
}

/// The value of a named colour leads back to that colour, and downsampling twice is downsampling
/// once.
pub proof fn downsample_keeps_named(i: usize, c: Color)
    requires
        i < NAMED_COUNT,
    ensures
        nearest(rgb_of(i as int), NAMED_COUNT as nat) == i,
        c.as_named().as_named() == c.as_named(),
{
    let v = rgb_of(i as int);
    lemma_nearest(v, NAMED_COUNT as nat);
    let j = nearest(v, NAMED_COUNT as nat);
    assert(distance(v, rgb_of(j)) <= distance(v, v));
    let w = rgb_of(j);
    assert(v == w) by (nonlinear_arith)
        requires
            (v.0 - w.0) * (v.0 - w.0) + (v.1 - w.1) * (v.1 - w.1) + (v.2 - w.2) * (v.2 - w.2) <= 0,
    ;
}

/// The shadow of a 24-bit colour has a quarter of each channel; so has that of each named colour
/// but gold, whose shadow is `#3E2A00`.
pub proof fn shadow_is_a_quarter(c: Color)
    requires
        c.wf(),
        c != Color::Named(6),
    ensures
        c.shadow_value().0 == c.value().0 / 4,
        c.shadow_value().1 == c.value().1 / 4,
        c.shadow_value().2 == c.value().2 / 4,
        Color::Named(6).shadow_value() == (0x3Eu8, 0x2Au8, 0u8),
{
}

/// The named colours follow one rule: a bit each for red, green and blue, and one that makes all of
/// them brighter. Only gold is brighter in red.
pub proof fn named_colors_follow_their_bits(i: int)
    requires
        0 <= i < 16,
    ensures
        ({
            let bright = 85 * (i / 8);
            let (r, g, b) = rgb_of(i);
            &&& r == 170 * (i / 4 % 2) + bright + (if i == 6 {
                85int
            } else {
                0
            })
            &&& g == 170 * (i / 2 % 2) + bright
            &&& b == 170 * (i % 2) + bright
        }),
{
}

/// The code of a named colour is its position as a hexadecimal digit, in either case.
pub proof fn codes_are_hexadecimal_digits(i: int)
    requires
        0 <= i < 16,
    ensures
        code_index(code_of(i)) == Some(i as usize),
        hex_digit_value(code_of(i)) == i,
        i >= 10 ==> code_index((code_of(i) as u32 - 32) as char) == Some(i as usize),
{
}

/// Six digits behind a number sign give the three channels, two digits each.
pub proof fn six_digits_are_three_channels(s: Seq<char>)
    requires
        s.len() == 7,
        s[0] == '#',
        forall|i: int| 1 <= i < 7 ==> text::is_hex_digit(#[trigger] s[i]),
    ensures
        parsed(s) == Some(
            Color::Rgb(
                (16 * hex_digit_value(s[1]) + hex_digit_value(s[2])) as u8,
                (16 * hex_digit_value(s[3]) + hex_digit_value(s[4])) as u8,
                (16 * hex_digit_value(s[5]) + hex_digit_value(s[6])) as u8,
            ),
        ),
{
    let t = s.drop_first();
    lemma_six_digits(t);
    assert forall|i: int| 0 <= i < t.len() implies text::is_hex_digit(#[trigger] t[i]) by {
        assert(t[i] == s[i + 1]);
    }
}

/// The channels of six digits.
pub proof fn lemma_six_digits(t: Seq<char>)
    requires
        t.len() == 6,
        forall|i: int| 0 <= i < 6 ==> text::is_hex_digit(#[trigger] t[i]),
    ensures
        channels(hex_value(t)) == (
            (16 * hex_digit_value(t[0]) + hex_digit_value(t[1])) as u8,
            (16 * hex_digit_value(t[2]) + hex_digit_value(t[3])) as u8,
            (16 * hex_digit_value(t[4]) + hex_digit_value(t[5])) as u8,
        ),
{
    let a5 = t.drop_last();
    let a4 = a5.drop_last();
    let a3 = a4.drop_last();
    let a2 = a3.drop_last();
    let a1 = a2.drop_last();
    assert(a1.last() == t[0] && a2.last() == t[1] && a3.last() == t[2] && a4.last() == t[3]
        && a5.last() == t[4] && t.last() == t[5]);
    let d0 = hex_digit_value(t[0]);
    let d1 = hex_digit_value(t[1]);
    let d2 = hex_digit_value(t[2]);
    let d3 = hex_digit_value(t[3]);
    let d4 = hex_digit_value(t[4]);
    let d5 = hex_digit_value(t[5]);
    assert(hex_value(a1.drop_last()) == 0);
    assert(hex_value(a1) == d0);
    assert(hex_value(a2) == hex_value(a1) * 16 + d1);
    assert(hex_value(a3) == hex_value(a2) * 16 + d2);
    assert(hex_value(a4) == hex_value(a3) * 16 + d3);
    assert(hex_value(a5) == hex_value(a4) * 16 + d4);
    assert(hex_value(t) == hex_value(a5) * 16 + d5);
    assert(text::is_hex_digit(t[0]) && text::is_hex_digit(t[1]) && text::is_hex_digit(t[2]));
    assert(text::is_hex_digit(t[3]) && text::is_hex_digit(t[4]) && text::is_hex_digit(t[5]));
    lemma_channels(16 * d0 + d1, 16 * d2 + d3, 16 * d4 + d5);
}

proof fn lemma_channels(r: nat, g: nat, b: nat)
    requires
        r < 256,
        g < 256,
        b < 256,
    ensures
        channels(0x1_0000 * r + 256 * g + b) == (r as u8, g as u8, b as u8),
{
}

/// Colours are as far apart as points in space, and a free colour becomes the nearest named one.
pub proof fn distances_are_euclidean(a: (u8, u8, u8), b: (u8, u8, u8), c: Color)
    ensures
        distance(a, b) == (a.0 - b.0) * (a.0 - b.0) + (a.1 - b.1) * (a.1 - b.1) + (a.2 - b.2) * (a.2
            - b.2),
        c is Named ==> c.as_named() == c,
        (c matches Color::Rgb(r, g, d) ==> c.as_named() == Color::Named(
            nearest((r, g, d), 16) as usize,
        )),
{
}

} // verus!
