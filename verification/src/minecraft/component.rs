//! Text components and the styled spans that they flatten to.
//!
//! A component carries text and style, may be a translation with arguments, and has children that
//! inherit its style. Formatting codes (`§` and a character) may stand inside the text: a colour
//! code clears all style flags and sets the colour, `§r` goes back to the style of the component,
//! and the other codes set one flag. The codes act from left to right within one text.

use vstd::prelude::*;
use crate::minecraft::color;
use crate::minecraft::color::Color;
use crate::minecraft::json;
use crate::minecraft::json::{Json, JsonView};
use crate::minecraft::text;

verus! {

/// The style of a component; a field that is `None` is inherited.
#[derive(Clone, Debug)]
pub struct Style {
    pub color: Option<Color>,
    pub bold: Option<bool>,
    pub italic: Option<bool>,
    pub underlined: Option<bool>,
    pub strikethrough: Option<bool>,
    pub obfuscated: Option<bool>,
    pub font: Option<String>,
}

/// A text component.
#[derive(Debug)]
pub struct Component {
    pub text: String,
    pub translate: Option<String>,
    pub with: Vec<Component>,
    pub fallback: Option<String>,
    pub extra: Vec<Component>,
    pub style: Style,
}

/// A style without open questions. `color` is `None` for the default text colour.
#[derive(Clone, Copy, Debug, PartialEq, Eq, Structural)]
pub struct ResolvedStyle {
    pub color: Option<Color>,
    pub bold: bool,
    pub italic: bool,
    pub underlined: bool,
    pub strikethrough: bool,
    pub obfuscated: bool,
}

/// A text in one style.
#[derive(Clone, Debug)]
pub struct Span {
    pub text: String,
    pub style: ResolvedStyle,
}

/// What a [`Style`] holds.
#[verifier::ext_equal]
pub struct StyleView {
    pub color: Option<Color>,
    pub bold: Option<bool>,
    pub italic: Option<bool>,
    pub underlined: Option<bool>,
    pub strikethrough: Option<bool>,
    pub obfuscated: Option<bool>,
    pub font: Option<Seq<char>>,
}

/// What a [`Component`] holds.
#[verifier::ext_equal]
pub struct ComponentView {
    pub text: Seq<char>,
    pub translate: Option<Seq<char>>,
    pub with: Seq<ComponentView>,
    pub fallback: Option<Seq<char>>,
    pub extra: Seq<ComponentView>,
    pub style: StyleView,
}

/// What a [`Span`] holds.
#[verifier::ext_equal]
pub struct SpanView {
    pub text: Seq<char>,
    pub style: ResolvedStyle,
}

impl Style {
    /// What the style holds.
    pub open spec fn model(self) -> StyleView {
        StyleView {
            color: self.color,
            bold: self.bold,
            italic: self.italic,
            underlined: self.underlined,
            strikethrough: self.strikethrough,
            obfuscated: self.obfuscated,
            font: text::opt_view(self.font),
        }
    }
}

impl Component {
    /// What the component holds.
    pub open spec fn model(self) -> ComponentView
        decreases self,
    {
        ComponentView {
            text: self.text@,
            translate: text::opt_view(self.translate),
            with: Seq::new(
                self.with@.len(),
                |i: int|
                    if 0 <= i < self.with@.len() {
                        self.with@[i].model()
                    } else {
                        arbitrary()
                    },
            ),
            fallback: text::opt_view(self.fallback),
            extra: Seq::new(
                self.extra@.len(),
                |i: int|
                    if 0 <= i < self.extra@.len() {
                        self.extra@[i].model()
                    } else {
                        arbitrary()
                    },
            ),
            style: self.style.model(),
        }
    }
}

impl Span {
    /// What the span holds.
    pub open spec fn model(self) -> SpanView {
        SpanView { text: self.text@, style: self.style }
    }
}

/// What each span of a list holds.
pub open spec fn span_views(list: Seq<Span>) -> Seq<SpanView> {
    Seq::new(list.len(), |i: int| list[i].model())
}

/// The style of text for which nothing is said.
pub open spec fn plain_style() -> ResolvedStyle {
    ResolvedStyle {
        color: None,
        bold: false,
        italic: false,
        underlined: false,
        strikethrough: false,
        obfuscated: false,
    }
}

/// The style of nothing but a colour.
pub open spec fn colored(c: Color) -> ResolvedStyle {
    ResolvedStyle { color: Some(c), ..plain_style() }
}

/// `a` where it says something, else `b`.
pub open spec fn or_else<T>(a: Option<T>, b: T) -> T {
    match a {
        Some(x) => x,
        None => b,
    }
}

/// What a component's style makes of the style that it inherits.
pub open spec fn resolved(inherited: ResolvedStyle, s: StyleView) -> ResolvedStyle {
    ResolvedStyle {
        color: if s.color is Some {
            s.color
        } else {
            inherited.color
        },
        bold: or_else(s.bold, inherited.bold),
        italic: or_else(s.italic, inherited.italic),
        underlined: or_else(s.underlined, inherited.underlined),
        strikethrough: or_else(s.strikethrough, inherited.strikethrough),
        obfuscated: or_else(s.obfuscated, inherited.obfuscated),
    }
}

// ---- translation arguments ----

/// How many digits `t` starts with.
pub open spec fn digit_run(t: Seq<char>) -> nat
    decreases t.len(),
{
    if t.len() > 0 && text::is_digit(t[0]) {
        1 + digit_run(t.drop_first())
    } else {
        0
    }
}

/// How many characters follow the digits of `%N$s` that belong to it.
pub open spec fn slot_tail(t: Seq<char>) -> nat {
    if t.len() >= 2 && t[0] == '$' && t[1] == 's' {
        2
    } else if t.len() >= 1 && t[0] == '$' {
        1
    } else {
        0
    }
}

/// The argument with a number, counted from one, or nothing where there is none.
pub open spec fn argument(args: Seq<Seq<char>>, number: Option<usize>) -> Seq<char> {
    match number {
        Some(n) => if 1 <= n <= args.len() {
            args[n - 1]
        } else {
            Seq::empty()
        },
        None => Seq::empty(),
    }
}

/// The template with its slots filled: `%s` takes the next argument, `%N$s` the one with that
/// number, and `%%` is a percent sign. `next` arguments have been taken by `%s`.
pub open spec fn filled(t: Seq<char>, args: Seq<Seq<char>>, next: nat) -> Seq<char>
    decreases t.len(),
    via filled_decreases
{
    if t.len() == 0 {
        Seq::empty()
    } else if t[0] != '%' {
        seq![t[0]] + filled(t.skip(1), args, next)
    } else if t.len() == 1 {
        seq!['%']
    } else if t[1] == '%' {
        seq!['%'] + filled(t.skip(2), args, next)
    } else if t[1] == 's' {
        (if next < args.len() {
            args[next as int]
        } else {
            Seq::empty()
        }) + filled(t.skip(2), args, next + 1)
    } else if text::is_digit(t[1]) {
        let n = digit_run(t.skip(1));
        let after = t.skip((1 + n) as int);
        argument(args, text::as_usize(t.subrange(1, (1 + n) as int))) + filled(
            after.skip(slot_tail(after) as int),
            args,
            next,
        )
    } else {
        seq!['%'] + filled(t.skip(1), args, next)
    }
}

#[via_fn]
proof fn filled_decreases(t: Seq<char>, args: Seq<Seq<char>>, next: nat) {
    lemma_digit_run(t.skip(1));
}

proof fn lemma_digit_run(t: Seq<char>)
    ensures
        digit_run(t) <= t.len(),
        forall|i: int| 0 <= i < digit_run(t) ==> text::is_digit(#[trigger] t[i]),
        digit_run(t) < t.len() ==> !text::is_digit(t[digit_run(t) as int]),
    decreases t.len(),
{
    if t.len() > 0 && text::is_digit(t[0]) {
        let u = t.drop_first();
        lemma_digit_run(u);
        assert forall|i: int| 0 <= i < digit_run(t) implies text::is_digit(#[trigger] t[i]) by {
            if i > 0 {
                assert(t[i] == u[i - 1]);
            }
        }
        if digit_run(t) < t.len() {
            assert(t[digit_run(t) as int] == u[digit_run(u) as int]);
        }
    }
}

/// The template with each `%%` made one percent sign, and its slots left as they are.
pub open spec fn unescaped(t: Seq<char>) -> Seq<char>
    decreases t.len(),
{
    if t.len() == 0 {
        Seq::empty()
    } else if t.len() >= 2 && t[0] == '%' && t[1] == '%' {
        seq!['%'] + unescaped(t.skip(2))
    } else {
        seq![t[0]] + unescaped(t.skip(1))
    }
}

/// The template with its slots filled; without arguments the slots stay, and `%%` is a percent sign
/// all the same.
pub open spec fn with_arguments(t: Seq<char>, args: Seq<Seq<char>>) -> Seq<char> {
    if args.len() == 0 {
        unescaped(t)
    } else {
        filled(t, args, 0)
    }
}

// ---- formatting codes ----

/// Six pairs of `§` and a hexadecimal digit stand at the start of `t`.
pub open spec fn has_hex_pairs(t: Seq<char>) -> bool {
    &&& t.len() >= 12
    &&& forall|i: int| 0 <= i < 6 ==> #[trigger] t[2 * i] == '§'
    &&& forall|i: int| 0 <= i < 6 ==> text::is_hex_digit(#[trigger] t[2 * i + 1])
}

/// The digits of six such pairs.
pub open spec fn hex_pairs(t: Seq<char>) -> Seq<char> {
    seq![t[1], t[3], t[5], t[7], t[9], t[11]]
}

/// The style after the code `§` + `code`, and how many of the following characters `t` it takes
/// up. `base` is the style of the component.
pub open spec fn after_code(
    cur: ResolvedStyle,
    code: char,
    t: Seq<char>,
    base: ResolvedStyle,
) -> (ResolvedStyle, nat) {
    let l = text::lower(code);
    if l == 'x' {
        if has_hex_pairs(t) {
            let c = color::channels(color::hex_value(hex_pairs(t)));
            (colored(Color::Rgb(c.0, c.1, c.2)), 12)
        } else {
            (cur, 0)
        }
    } else if color::code_index(l) is Some {
        (colored(Color::Named(color::code_index(l)->0)), 0)
    } else if l == 'k' {
        (ResolvedStyle { obfuscated: true, ..cur }, 0)
    } else if l == 'l' {
        (ResolvedStyle { bold: true, ..cur }, 0)
    } else if l == 'm' {
        (ResolvedStyle { strikethrough: true, ..cur }, 0)
    } else if l == 'n' {
        (ResolvedStyle { underlined: true, ..cur }, 0)
    } else if l == 'o' {
        (ResolvedStyle { italic: true, ..cur }, 0)
    } else if l == 'g' {
        (colored(Color::Rgb(0xDD, 0xD6, 0x05)), 0)
    } else if l == 'r' {
        (base, 0)
    } else {
        (cur, 0)
    }
}

/// The text as a span, or none where it is empty.
pub open spec fn one_span(t: Seq<char>, style: ResolvedStyle) -> Seq<SpanView> {
    if t.len() == 0 {
        Seq::empty()
    } else {
        seq![SpanView { text: t, style }]
    }
}

/// The spans of a text with formatting codes. `got` is text in the style `cur` that has been read
/// already. A `§` at the very end is dropped.
pub open spec fn expanded(
    t: Seq<char>,
    got: Seq<char>,
    cur: ResolvedStyle,
    base: ResolvedStyle,
) -> Seq<SpanView>
    decreases t.len(),
{
    if t.len() == 0 {
        one_span(got, cur)
    } else if t[0] != '§' {
        expanded(t.skip(1), got.push(t[0]), cur, base)
    } else if t.len() == 1 {
        one_span(got, cur)
    } else {
        let (style, n) = after_code(cur, t[1], t.skip(2), base);
        one_span(got, cur) + expanded(t.skip((2 + n) as int), Seq::empty(), style, base)
    }
}

// ---- flattening ----

/// The text that a component shows itself: its text, else its translation. Without a language
/// file a translation shows its fallback or its key.
pub open spec fn content(c: ComponentView) -> Seq<char>
    decreases c, 0nat,
{
    if c.text.len() > 0 {
        c.text
    } else {
        match c.translate {
            Some(key) => with_arguments(or_else(c.fallback, key), plains(c.with)),
            None => Seq::empty(),
        }
    }
}

/// The spans of a component and its children.
pub open spec fn flat(c: ComponentView, inherited: ResolvedStyle) -> Seq<SpanView>
    decreases c, 1nat,
{
    let style = resolved(inherited, c.style);
    expanded(content(c), Seq::empty(), style, style) + flat_all(c.extra, style)
}

/// The spans of several components, one after the other.
pub open spec fn flat_all(list: Seq<ComponentView>, inherited: ResolvedStyle) -> Seq<SpanView>
    decreases list,
{
    if list.len() == 0 {
        Seq::empty()
    } else {
        flat_all(list.drop_last(), inherited) + flat(list.last(), inherited)
    }
}

/// The text of a component without style.
pub open spec fn plain_of(c: ComponentView) -> Seq<char>
    decreases c, 3nat,
{
    texts(spans_of(c))
}

/// The text of each component without style.
pub open spec fn plains(list: Seq<ComponentView>) -> Seq<Seq<char>>
    decreases list,
{
    if list.len() == 0 {
        Seq::empty()
    } else {
        plains(list.drop_last()).push(plain_of(list.last()))
    }
}

/// The spans of a component, neighbours of the same style made one.
pub open spec fn spans_of(c: ComponentView) -> Seq<SpanView>
    decreases c, 2nat,
{
    merged(flat(c, plain_style()))
}

/// The texts of the spans, one after the other.
pub open spec fn texts(spans: Seq<SpanView>) -> Seq<char>
    decreases spans.len(),
{
    if spans.len() == 0 {
        Seq::empty()
    } else {
        texts(spans.drop_last()) + spans.last().text
    }
}

/// The spans with neighbours of the same style made one.
pub open spec fn merged(spans: Seq<SpanView>) -> Seq<SpanView>
    decreases spans.len(),
{
    if spans.len() == 0 {
        Seq::empty()
    } else {
        let m = merged(spans.drop_last());
        let s = spans.last();
        if m.len() > 0 && m.last().style == s.style {
            m.update(m.len() - 1, SpanView { text: m.last().text + s.text, style: s.style })
        } else {
            m.push(s)
        }
    }
}

impl ResolvedStyle {
    /// The style of text for which nothing is said.
    pub fn plain() -> (r: Self)
        ensures
            r == plain_style(),
    {
        ResolvedStyle {
            color: None,
            bold: false,
            italic: false,
            underlined: false,
            strikethrough: false,
            obfuscated: false,
        }
    }
}

impl Default for ResolvedStyle {
    fn default() -> (r: Self)
        ensures
            r == plain_style(),
    {
        ResolvedStyle::plain()
    }
}

impl Default for Style {
    fn default() -> (r: Self)
        ensures
            r.model() == inheriting(),
    {
        Style {
            color: None,
            bold: None,
            italic: None,
            underlined: None,
            strikethrough: None,
            obfuscated: None,
            font: None,
        }
    }
}

/// The style that inherits everything.
pub open spec fn inheriting() -> StyleView {
    StyleView {
        color: None,
        bold: None,
        italic: None,
        underlined: None,
        strikethrough: None,
        obfuscated: None,
        font: None,
    }
}

/// The component that is nothing but a text.
pub open spec fn text_view(s: Seq<char>) -> ComponentView {
    ComponentView {
        text: s,
        translate: None,
        with: Seq::empty(),
        fallback: None,
        extra: Seq::empty(),
        style: inheriting(),
    }
}

impl Default for Component {
    fn default() -> (r: Self)
        ensures
            r.model() == text_view(Seq::empty()),
    {
        proof {
            reveal_strlit("");
            assert(""@ =~= Seq::empty());
        }
        Component::text("")
    }
}

/// What a component's style makes of the style that it inherits.
fn resolve(inherited: ResolvedStyle, s: &Style) -> (r: ResolvedStyle)
    ensures
        r == resolved(inherited, s.model()),
{
    ResolvedStyle {
        color: if s.color.is_some() {
            s.color
        } else {
            inherited.color
        },
        bold: s.bold.unwrap_or(inherited.bold),
        italic: s.italic.unwrap_or(inherited.italic),
        underlined: s.underlined.unwrap_or(inherited.underlined),
        strikethrough: s.strikethrough.unwrap_or(inherited.strikethrough),
        obfuscated: s.obfuscated.unwrap_or(inherited.obfuscated),
    }
}

/// The style of nothing but a colour.
fn with_color(c: Color) -> (r: ResolvedStyle)
    ensures
        r == colored(c),
{
    ResolvedStyle { color: Some(c), ..ResolvedStyle::plain() }
}

/// The style after a code, and how many of the characters from `pos` on it takes up.
fn apply_code(
    cur: ResolvedStyle,
    code: char,
    chars: &Vec<char>,
    pos: usize,
    base: ResolvedStyle,
) -> (r: (ResolvedStyle, usize))
    requires
        pos <= chars@.len(),
    ensures
        (r.0, r.1 as nat) == after_code(cur, code, chars@.skip(pos as int), base),
        pos + r.1 <= chars@.len(),
{
    let l = text::to_ascii_lowercase(code);
    let ghost t = chars@.skip(pos as int);
    if l == 'x' {
        if chars.len() - pos < 12 {
            return (cur, 0);
        }
        let mut hex = String::new();
        for k in 0..6usize
            invariant
                l == 'x',
                l == text::lower(code),
                pos + 12 <= chars.len(),
                t == chars@.skip(pos as int),
                hex@ == Seq::new(k as nat, |i: int| t[2 * i + 1]),
                forall|i: int| 0 <= i < k ==> #[trigger] t[2 * i] == '§',
                forall|i: int| 0 <= i < k ==> text::is_hex_digit(#[trigger] t[2 * i + 1]),
        {
            let mark = chars[pos + 2 * k];
            let h = chars[pos + 2 * k + 1];
            let ghost g = k as int;
            assert(t[2 * g] == mark && t[2 * g + 1] == h);
            if mark != '§' || !text::is_ascii_hexdigit(h) {
                return (cur, 0);
            }
            hex.push(h);
            assert(hex@ =~= Seq::new((k + 1) as nat, |i: int| t[2 * i + 1]));
        }
        assert(hex@ =~= hex_pairs(t));
        assert forall|i: int| 0 <= i < hex@.len() implies text::is_hex_digit(#[trigger] hex@[i]) by {
            assert(hex@[i] == t[2 * i + 1]);
        }
        if let Some((r, g, b)) = color::parse_hex(hex.as_str()) {
            return (with_color(Color::Rgb(r, g, b)), 12);
        }
        return (cur, 12);
    }
    if let Some(i) = color::index_by_code(l) {
        return (with_color(Color::Named(i)), 0);
    }
    let style = if l == 'k' {
        ResolvedStyle { obfuscated: true, ..cur }
    } else if l == 'l' {
        ResolvedStyle { bold: true, ..cur }
    } else if l == 'm' {
        ResolvedStyle { strikethrough: true, ..cur }
    } else if l == 'n' {
        ResolvedStyle { underlined: true, ..cur }
    } else if l == 'o' {
        ResolvedStyle { italic: true, ..cur }
    } else if l == 'g' {
        with_color(Color::Rgb(0xDD, 0xD6, 0x05))
    } else if l == 'r' {
        base
    } else {
        cur
    };
    (style, 0)
}

/// Appends a text as a span, unless it is empty.
fn push_span(out: &mut Vec<Span>, buf: String, style: ResolvedStyle)
    ensures
        span_views(final(out)@) == span_views(old(out)@) + one_span(buf@, style),
{
    if !buf.as_str().is_empty() {
        out.push(Span { text: buf, style });
    }
    assert(span_views(out@) =~= span_views(old(out)@) + one_span(buf@, style));
}

/// Appends the spans of a text with formatting codes.
pub fn expand_section(content: &str, base: ResolvedStyle, out: &mut Vec<Span>)
    ensures
        span_views(final(out)@) == span_views(old(out)@) + expanded(
            content@,
            Seq::empty(),
            base,
            base,
        ),
{
    let chars = text::chars_of(content);
    let mut cur = base;
    let mut buf = String::new();
    let mut i: usize = 0;
    let ghost before = span_views(out@);
    assert(content@.skip(0) =~= content@);
    while i < chars.len()
        invariant
            chars@ == content@,
            i <= chars@.len(),
            span_views(out@) + expanded(content@.skip(i as int), buf@, cur, base) =~= before
                + expanded(content@, Seq::empty(), base, base),
        decreases chars@.len() - i,
    {
        let c = chars[i];
        let ghost t = content@.skip(i as int);
        assert(t[0] == c);
        if c == '§' {
            if i + 1 < chars.len() {
                let code = chars[i + 1];
                let (style, n) = apply_code(cur, code, &chars, i + 2, base);
                proof {
                    assert(t[1] == code);
                    assert(t.skip(2) =~= content@.skip(i + 2));
                    assert(t.skip(2 + n) =~= content@.skip(i + 2 + n));
                }
                push_span(out, buf, cur);
                buf = String::new();
                cur = style;
                i = i + 2 + n;
            } else {
                assert(content@.skip(i + 1).len() == 0);
                i += 1;
            }
        } else {
            assert(t.skip(1) =~= content@.skip(i + 1));
            buf.push(c);
            i += 1;
        }
    }
    push_span(out, buf, cur);
}

/// Makes neighbours of the same style one.
pub fn merge_adjacent(spans: Vec<Span>) -> (r: Vec<Span>)
    ensures
        span_views(r@) == merged(span_views(spans@)),
{
    let mut out: Vec<Span> = Vec::new();
    let ghost all = span_views(spans@);
    assert(span_views(out@) =~= merged(all.take(0)));
    let n: usize = spans.len();
    for i in 0..n
        invariant
            n == spans@.len(),
            all == span_views(spans@),
            span_views(out@) =~= merged(all.take(i as int)),
    {
        let sp = &spans[i];
        let ghost m = span_views(out@);
        assert(all.take(i + 1).drop_last() =~= all.take(i as int));
        assert(all.take(i + 1).last() == sp.model());
        let k: usize = out.len();
        if k > 0 && out[k - 1].style == sp.style {
            let mut last = match out.pop() {
                Some(l) => l,
                None => {
                    Span { text: String::new(), style: sp.style }
                },
            };
            last.text.append(sp.text.as_str());
            out.push(last);
            assert(span_views(out@) =~= m.update(
                m.len() - 1,
                SpanView { text: m.last().text + sp.text@, style: sp.style },
            ));
        } else {
            out.push(Span { text: sp.text.clone(), style: sp.style });
            assert(span_views(out@) =~= m.push(sp.model()));
        }
    }
    assert(all.take(n as int) =~= all);
    out
}

impl Component {
    /// A component that is nothing but a text.
    pub fn text(s: &str) -> (r: Self)
        ensures
            r.model() == text_view(s@),
    {
        let r = Component {
            text: s.to_owned(),
            translate: None,
            with: Vec::new(),
            fallback: None,
            extra: Vec::new(),
            style: Style {
                color: None,
                bold: None,
                italic: None,
                underlined: None,
                strikethrough: None,
                obfuscated: None,
                font: None,
            },
        };
        assert(r.model().with =~= Seq::empty());
        assert(r.model().extra =~= Seq::empty());
        r
    }
}

/// The template with each `%%` made one percent sign.
fn unescape(template: &str) -> (r: String)
    ensures
        r@ == unescaped(template@),
{
    let t = text::chars_of(template);
    let mut out = String::new();
    let mut i: usize = 0;
    assert(template@.skip(0) =~= template@);
    while i < t.len()
        invariant
            t@ == template@,
            i <= t@.len(),
            out@ + unescaped(t@.skip(i as int)) =~= unescaped(template@),
        decreases t@.len() - i,
    {
        let ghost s = t@.skip(i as int);
        assert(s.skip(1) =~= t@.skip(i + 1));
        out.push(t[i]);
        if t[i] == '%' && i + 1 < t.len() && t[i + 1] == '%' {
            assert(s.skip(2) =~= t@.skip(i + 2));
            i += 2;
        } else {
            i += 1;
        }
    }
    out
}

/// The template with its slots filled by the texts of the components.
fn apply_with(template: &str, with: &Vec<Component>) -> (r: String)
    ensures
        r@ == with_arguments(template@, plains(models(with@))),
    decreases with, 1nat,
{
    let args = plain_texts(with);
    if args.len() == 0 {
        return unescape(template);
    }
    fill_slots(template, &args)
}

/// What each component of a list holds.
pub open spec fn models(list: Seq<Component>) -> Seq<ComponentView> {
    Seq::new(list.len(), |i: int| list[i].model())
}

/// The text of each component without style.
fn plain_texts(list: &Vec<Component>) -> (r: Vec<String>)
    ensures
        text::views(r@) == plains(models(list@)),
    decreases list, 0nat,
{
    let mut out: Vec<String> = Vec::new();
    let ghost all = models(list@);
    assert(text::views(out@) =~= plains(all.take(0)));
    for i in 0..list.len()
        invariant
            all == models(list@),
            text::views(out@) =~= plains(all.take(i as int)),
    {
        assert(all.take(i + 1).drop_last() =~= all.take(i as int));
        let ghost before = text::views(out@);
        out.push(list[i].plain());
        assert(text::views(out@) =~= before.push(plain_of(all[i as int])));
    }
    assert(all.take(all.len() as int) =~= all);
    out
}

/// Appends the spans of a component and its children.
fn flatten(comp: &Component, inherited: ResolvedStyle, out: &mut Vec<Span>)
    ensures
        span_views(final(out)@) == span_views(old(out)@) + flat(comp.model(), inherited),
    decreases comp, 1nat,
{
    let current = resolve(inherited, &comp.style);
    let ghost c = comp.model();
    assert(c.with =~= models(comp.with@));
    assert(c.extra =~= models(comp.extra@));
    let shown: String = if !comp.text.as_str().is_empty() {
        comp.text.clone()
    } else if let Some(key) = &comp.translate {
        match &comp.fallback {
            Some(f) => apply_with(f.as_str(), &comp.with),
            None => apply_with(key.as_str(), &comp.with),
        }
    } else {
        String::new()
    };
    assert(shown@ == content(c));
    let ghost before = span_views(out@);
    expand_section(shown.as_str(), current, out);
    let ghost own = span_views(out@);
    assert(c.extra.take(0) =~= Seq::empty());
    for i in 0..comp.extra.len()
        invariant
            c == comp.model(),
            c.extra == models(comp.extra@),
            span_views(out@) =~= own + flat_all(c.extra.take(i as int), current),
    {
        assert(c.extra.take(i + 1).drop_last() =~= c.extra.take(i as int));
        flatten(&comp.extra[i], current, out);
    }
    assert(c.extra.take(c.extra.len() as int) =~= c.extra);
}

impl Component {
    /// The spans of the component, neighbours of the same style made one. Colours stay as they
    /// are, whatever the client knows.
    pub fn to_spans(&self) -> (r: Vec<Span>)
        ensures
            span_views(r@) == spans_of(self.model()),
            colors_ok(self.model()) ==> spans_ok(span_views(r@)),
        decreases self, 2nat,
    {
        let mut out: Vec<Span> = Vec::new();
        flatten(self, ResolvedStyle::plain(), &mut out);
        assert(span_views(out@) =~= flat(self.model(), plain_style()));
        proof {
            if colors_ok(self.model()) {
                spans_keep_known_colors(self.model());
            }
        }
        merge_adjacent(out)
    }

    /// The text of the component without style.
    pub fn plain(&self) -> (r: String)
        ensures
            r@ == plain_of(self.model()),
        decreases self, 3nat,
    {
        let spans = self.to_spans();
        let mut out = String::new();
        let ghost all = span_views(spans@);
        assert(all.take(0) =~= Seq::empty());
        for i in 0..spans.len()
            invariant
                all == span_views(spans@),
                out@ == texts(all.take(i as int)),
        {
            assert(all.take(i + 1).drop_last() =~= all.take(i as int));
            out.append(spans[i].text.as_str());
        }
        assert(all.take(all.len() as int) =~= all);
        out
    }
}

/// The template with its slots filled.
fn fill_slots(template: &str, args: &Vec<String>) -> (r: String)
    ensures
        r@ == filled(template@, text::views(args@), 0),
{
    let t = text::chars_of(template);
    let ghost vs = text::views(args@);
    let mut out = String::new();
    let mut seq: usize = 0;
    let mut i: usize = 0;
    assert(template@.skip(0) =~= template@);
    while i < t.len()
        invariant
            t@ == template@,
            vs == text::views(args@),
            i <= t@.len(),
            seq <= i,
            out@ + filled(t@.skip(i as int), vs, seq as nat) =~= filled(template@, vs, 0),
        decreases t@.len() - i,
    {
        let c = t[i];
        let ghost s = t@.skip(i as int);
        let ghost start = out@;
        assert(s[0] == c);
        if c != '%' {
            out.push(c);
            assert(s.skip(1) =~= t@.skip(i + 1));
            i += 1;
            continue;
        }
        if i + 1 == t.len() {
            out.push('%');
            i += 1;
            assert(t@.skip(i as int).len() == 0);
            continue;
        }
        let d = t[i + 1];
        assert(s[1] == d);
        assert(s.skip(2) =~= t@.skip(i + 2));
        if d == '%' {
            out.push('%');
            i += 2;
        } else if d == 's' {
            if seq < args.len() {
                out.append(args[seq].as_str());
            }
            seq += 1;
            i += 2;
        } else if text::is_ascii_digit(d) {
            let mut j: usize = i + 1;
            let ghost run = s.skip(1);
            proof {
                lemma_digit_run(run);
            }
            while j < t.len() && text::is_ascii_digit(t[j])
                invariant
                    run == t@.skip(i + 1),
                    i + 1 <= j <= t@.len(),
                    j - (i + 1) <= digit_run(run) <= run.len(),
                    forall|k: int| 0 <= k < digit_run(run) ==> text::is_digit(#[trigger] run[k]),
                    digit_run(run) < run.len() ==> !text::is_digit(run[digit_run(run) as int]),
                decreases t@.len() - j,
            {
                assert(run[j - (i + 1)] == t@[j as int]);
                j += 1;
            }
            assert(j - (i + 1) == digit_run(run)) by {
                if j - (i + 1) < digit_run(run) {
                    assert(text::is_digit(run[j - (i + 1)]));
                }
            }
            let number = text::string_of(t.as_slice(), i + 1, j);
            assert(number@ =~= s.subrange(1, (1 + digit_run(run)) as int));
            let ghost after = s.skip((1 + digit_run(run)) as int);
            assert(after =~= t@.skip(j as int));
            let ghost tail = slot_tail(after);
            let mut next: usize = j;
            if next < t.len() && t[next] == '$' {
                next += 1;
                if next < t.len() && t[next] == 's' {
                    next += 1;
                }
            }
            assert(next == j + tail);
            assert(after.skip(tail as int) =~= t@.skip(next as int));
            if let Some(n) = text::parse_usize(number.as_str()) {
                if n >= 1 && n - 1 < args.len() {
                    out.append(args[n - 1].as_str());
                }
            }
            i = next;
        } else {
            assert(s.skip(1) =~= t@.skip(i + 1));
            out.push('%');
            i += 1;
        }
    }
    assert(t@.skip(i as int).len() == 0);
    out
}

// ---- terminal colours ----

/// The parameter that selects a 24-bit text colour on a terminal.
pub open spec fn color_code(c: (u8, u8, u8)) -> Seq<char> {
    "38;2;"@ + text::decimal(c.0 as nat) + ";"@ + text::decimal(c.1 as nat) + ";"@ + text::decimal(
        c.2 as nat,
    )
}

/// A list of one where `on` holds, else an empty one.
pub open spec fn one_if(on: bool, s: Seq<char>) -> Seq<Seq<char>> {
    if on {
        seq![s]
    } else {
        Seq::empty()
    }
}

/// The terminal parameters of a style.
pub open spec fn ansi_codes(style: ResolvedStyle) -> Seq<Seq<char>> {
    one_if(style.color is Some, color_code(style.color->0.value())) + one_if(style.bold, "1"@)
        + one_if(style.italic, "3"@) + one_if(style.underlined, "4"@) + one_if(
        style.strikethrough,
        "9"@,
    )
}

/// A span for a terminal: the parameters of its style, its text, and the reset.
pub open spec fn ansi_span(s: SpanView) -> Seq<char> {
    (if ansi_codes(s.style).len() > 0 {
        "\x1b["@ + text::joined(ansi_codes(s.style), ";"@) + "m"@
    } else {
        Seq::empty()
    }) + s.text + "\x1b[0m"@
}

/// The spans for a terminal.
pub open spec fn ansi(spans: Seq<SpanView>) -> Seq<char>
    decreases spans.len(),
{
    if spans.len() == 0 {
        Seq::empty()
    } else {
        ansi(spans.drop_last()) + ansi_span(spans.last())
    }
}

/// Each colour is one that there is.
pub open spec fn spans_ok(spans: Seq<SpanView>) -> bool {
    forall|i: int| 0 <= i < spans.len() ==> style_ok(#[trigger] spans[i].style)
}

/// The colour is one that there is.
pub open spec fn style_ok(style: ResolvedStyle) -> bool {
    style.color matches Some(c) ==> c.wf()
}

/// Each colour of the component and its children is one that there is.
pub open spec fn colors_ok(c: ComponentView) -> bool
    decreases c,
{
    &&& c.style.color matches Some(x) ==> x.wf()
    &&& all_colors_ok(c.extra)
}

/// Each colour of the components and their children is one that there is.
pub open spec fn all_colors_ok(list: Seq<ComponentView>) -> bool
    decreases list,
{
    list.len() > 0 ==> all_colors_ok(list.drop_last()) && colors_ok(list.last())
}

/// Whether each colour is one that there is.
pub fn spans_have_known_colors(spans: &[Span]) -> (r: bool)
    ensures
        r == spans_ok(span_views(spans@)),
{
    let ghost all = span_views(spans@);
    for i in 0..spans.len()
        invariant
            all == span_views(spans@),
            forall|k: int| 0 <= k < i ==> style_ok(#[trigger] all[k].style),
    {
        assert(all[i as int].style == spans@[i as int].style);
        if let Some(Color::Named(n)) = spans[i].style.color {
            if n >= color::NAMED_COUNT {
                assert(!style_ok(all[i as int].style));
                return false;
            }
        }
    }
    true
}

/// The terminal parameters of a style.
fn codes_of(style: ResolvedStyle) -> (r: Vec<String>)
    requires
        style_ok(style),
    ensures
        text::views(r@) == ansi_codes(style),
{
    let mut codes: Vec<String> = Vec::new();
    if let Some(c) = style.color {
        let (r, g, b) = c.rgb();
        let mut s = "38;2;".to_owned();
        text::push_decimal(&mut s, r as u128);
        s.append(";");
        text::push_decimal(&mut s, g as u128);
        s.append(";");
        text::push_decimal(&mut s, b as u128);
        codes.push(s);
    }
    if style.bold {
        codes.push("1".to_owned());
    }
    if style.italic {
        codes.push("3".to_owned());
    }
    if style.underlined {
        codes.push("4".to_owned());
    }
    if style.strikethrough {
        codes.push("9".to_owned());
    }
    assert(text::views(codes@) =~= ansi_codes(style));
    codes
}

/// Appends a span for a terminal.
fn push_ansi(s: &mut String, sp: &Span)
    requires
        style_ok(sp.style),
    ensures
        final(s)@ == old(s)@ + ansi_span(sp.model()),
{
    let codes = codes_of(sp.style);
    assert(text::views(codes@).len() == codes@.len());
    let mut piece = String::new();
    if codes.len() > 0 {
        let list = text::join(&codes, ";");
        piece.append("\x1b[");
        piece.append(list.as_str());
        piece.append("m");
    }
    piece.append(sp.text.as_str());
    piece.append("\x1b[0m");
    assert(piece@ =~= ansi_span(sp.model()));
    s.append(piece.as_str());
}

/// The spans with 24-bit colours for a terminal. Obfuscated text shows as it is.
pub fn to_ansi(spans: &[Span]) -> (r: String)
    requires
        spans_ok(span_views(spans@)),
    ensures
        r@ == ansi(span_views(spans@)),
{
    let mut s = String::new();
    let ghost all = span_views(spans@);
    assert(all.take(0) =~= Seq::empty());
    for i in 0..spans.len()
        invariant
            all == span_views(spans@),
            spans_ok(all),
            s@ == ansi(all.take(i as int)),
    {
        let sp = &spans[i];
        assert(all.take(i + 1).drop_last() =~= all.take(i as int));
        assert(all.take(i + 1).last() == sp.model());
        assert(style_ok(all[i as int].style));
        push_ansi(&mut s, sp);
        assert(s@ =~= ansi(all.take(i + 1)));
    }
    assert(all.take(all.len() as int) =~= all);
    s
}

// ---- laws ----

/// Making neighbours of the same style one leaves the text alone.
pub proof fn merging_keeps_text(spans: Seq<SpanView>)
    ensures
        texts(merged(spans)) == texts(spans),
    decreases spans.len(),
{
    if spans.len() > 0 {
        let before = spans.drop_last();
        let s = spans.last();
        let m = merged(before);
        merging_keeps_text(before);
        if m.len() > 0 && m.last().style == s.style {
            assert(merged(spans).drop_last() =~= m.drop_last());
            assert(texts(m) == texts(m.drop_last()) + m.last().text);
            assert(texts(merged(spans)) =~= texts(spans));
        } else {
            assert(merged(spans).drop_last() =~= m);
        }
    }
}

/// After merging no two neighbours have the same style.
pub proof fn merging_leaves_no_equal_neighbours(spans: Seq<SpanView>, i: int)
    requires
        0 <= i < merged(spans).len() - 1,
    ensures
        merged(spans)[i].style != merged(spans)[i + 1].style,
    decreases spans.len(),
{
    if spans.len() > 0 {
        let m = merged(spans.drop_last());
        if i + 1 < m.len() {
            merging_leaves_no_equal_neighbours(spans.drop_last(), i);
        }
    }
}

/// A text without formatting codes is one span in the style of its component.
pub proof fn text_without_codes_is_one_span(
    t: Seq<char>,
    got: Seq<char>,
    cur: ResolvedStyle,
    base: ResolvedStyle,
)
    requires
        !t.contains('§'),
    ensures
        expanded(t, got, cur, base) == one_span(got + t, cur),
    decreases t.len(),
{
    if t.len() == 0 {
        assert(got + t =~= got);
    } else {
        assert(t.contains(t[0]));
        let u = t.skip(1);
        assert(!u.contains('§')) by {
            if u.contains('§') {
                let k = choose|k: int| 0 <= k < u.len() && u[k] == '§';
                assert(t[k + 1] == '§');
            }
        }
        text_without_codes_is_one_span(u, got.push(t[0]), cur, base);
        assert(got.push(t[0]) + u =~= got + t);
    }
}

/// A text with each percent sign doubled.
pub open spec fn escaped(t: Seq<char>) -> Seq<char>
    decreases t.len(),
{
    if t.len() == 0 {
        Seq::empty()
    } else if t[0] == '%' {
        seq!['%', '%'] + escaped(t.skip(1))
    } else {
        seq![t[0]] + escaped(t.skip(1))
    }
}

proof fn lemma_escaped(t: Seq<char>, args: Seq<Seq<char>>, next: nat)
    ensures
        filled(escaped(t), args, next) == t,
        unescaped(escaped(t)) == t,
    decreases t.len(),
{
    let e = escaped(t);
    if t.len() > 0 {
        let u = t.skip(1);
        lemma_escaped(u, args, next);
        if t[0] == '%' {
            assert(e.skip(2) =~= escaped(u));
        } else {
            assert(e.skip(1) =~= escaped(u));
        }
    }
    assert(filled(e, args, next) =~= t);
    assert(unescaped(e) =~= t);
}

/// A text whose percent signs are doubled is a template that shows the text, whatever the
/// arguments, and also without any.
pub proof fn doubled_percent_signs_show_one(t: Seq<char>, args: Seq<Seq<char>>)
    ensures
        with_arguments(escaped(t), args) == t,
{
    lemma_escaped(t, args, 0);
}

/// A template without a percent sign stays as it is.
pub proof fn template_without_slots_is_kept(t: Seq<char>, args: Seq<Seq<char>>)
    requires
        !t.contains('%'),
    ensures
        with_arguments(t, args) == t,
{
    lemma_without_percent(t);
    lemma_escaped(t, args, 0);
}

proof fn lemma_without_percent(t: Seq<char>)
    requires
        !t.contains('%'),
    ensures
        escaped(t) == t,
    decreases t.len(),
{
    if t.len() > 0 {
        assert(t.contains(t[0]));
        let u = t.skip(1);
        assert(!u.contains('%')) by {
            if u.contains('%') {
                let k = choose|k: int| 0 <= k < u.len() && u[k] == '%';
                assert(t[k + 1] == '%');
            }
        }
        lemma_without_percent(u);
    }
    assert(escaped(t) =~= t);
}

/// The span has text, and no formatting code in it.
pub open spec fn span_clean(s: SpanView) -> bool {
    s.text.len() > 0 && !s.text.contains('§')
}

/// Each span has text, and no formatting code in it.
pub open spec fn spans_clean(spans: Seq<SpanView>) -> bool {
    forall|i: int| 0 <= i < spans.len() ==> span_clean(#[trigger] spans[i])
}

proof fn lemma_clean_concat(a: Seq<SpanView>, b: Seq<SpanView>)
    requires
        spans_clean(a),
        spans_clean(b),
    ensures
        spans_clean(a + b),
{
    assert forall|i: int| 0 <= i < (a + b).len() implies span_clean(#[trigger] (a + b)[i]) by {
        if i < a.len() {
            assert(span_clean(a[i]));
        } else {
            assert(span_clean(b[i - a.len()]));
        }
    }
}

proof fn lemma_expanded_clean(
    t: Seq<char>,
    got: Seq<char>,
    cur: ResolvedStyle,
    base: ResolvedStyle,
)
    requires
        !got.contains('§'),
    ensures
        spans_clean(expanded(t, got, cur, base)),
    decreases t.len(),
{
    if t.len() > 0 && t[0] != '§' {
        assert(!got.push(t[0]).contains('§'));
        lemma_expanded_clean(t.skip(1), got.push(t[0]), cur, base);
    } else if t.len() > 1 {
        let (style, n) = after_code(cur, t[1], t.skip(2), base);
        let empty = Seq::<char>::empty();
        assert(!empty.contains('§'));
        lemma_expanded_clean(t.skip((2 + n) as int), empty, style, base);
        lemma_clean_concat(
            one_span(got, cur),
            expanded(t.skip((2 + n) as int), empty, style, base),
        );
    }
}

proof fn lemma_flat_clean(c: ComponentView, inherited: ResolvedStyle)
    ensures
        spans_clean(flat(c, inherited)),
    decreases c, 1nat,
{
    let style = resolved(inherited, c.style);
    assert(!Seq::<char>::empty().contains('§'));
    lemma_expanded_clean(content(c), Seq::empty(), style, style);
    lemma_flat_all_clean(c.extra, style);
    lemma_clean_concat(expanded(content(c), Seq::empty(), style, style), flat_all(c.extra, style));
}

proof fn lemma_flat_all_clean(list: Seq<ComponentView>, inherited: ResolvedStyle)
    ensures
        spans_clean(flat_all(list, inherited)),
    decreases list,
{
    if list.len() > 0 {
        lemma_flat_all_clean(list.drop_last(), inherited);
        lemma_flat_clean(list.last(), inherited);
        lemma_clean_concat(flat_all(list.drop_last(), inherited), flat(list.last(), inherited));
    }
}

proof fn lemma_merged_clean(spans: Seq<SpanView>)
    requires
        spans_clean(spans),
    ensures
        spans_clean(merged(spans)),
    decreases spans.len(),
{
    if spans.len() > 0 {
        let s = spans.last();
        let m = merged(spans.drop_last());
        assert(span_clean(spans[spans.len() - 1]));
        assert forall|i: int| 0 <= i < spans.drop_last().len() implies span_clean(
            #[trigger] spans.drop_last()[i],
        ) by {
            assert(spans.drop_last()[i] == spans[i]);
        }
        lemma_merged_clean(spans.drop_last());
        if m.len() > 0 {
            let l = m.last();
            assert(span_clean(m[m.len() - 1]));
            let both = l.text + s.text;
            assert(!both.contains('§')) by {
                if both.contains('§') {
                    let k = choose|k: int| 0 <= k < both.len() && both[k] == '§';
                    if k < l.text.len() {
                        assert(l.text.contains(l.text[k]));
                    } else {
                        assert(s.text.contains(s.text[k - l.text.len()]));
                    }
                }
            }
        }
    }
}

/// No span of a component is empty, and no formatting code is left in one.
pub proof fn spans_are_clean(c: ComponentView)
    ensures
        spans_clean(spans_of(c)),
{
    lemma_flat_clean(c, plain_style());
    lemma_merged_clean(flat(c, plain_style()));
}

proof fn lemma_texts_clean(spans: Seq<SpanView>)
    requires
        spans_clean(spans),
    ensures
        !texts(spans).contains('§'),
    decreases spans.len(),
{
    if spans.len() > 0 {
        assert forall|i: int| 0 <= i < spans.drop_last().len() implies span_clean(
            #[trigger] spans.drop_last()[i],
        ) by {
            assert(spans.drop_last()[i] == spans[i]);
        }
        lemma_texts_clean(spans.drop_last());
        let a = texts(spans.drop_last());
        let b = spans.last().text;
        assert(span_clean(spans[spans.len() - 1]));
        if (a + b).contains('§') {
            let k = choose|k: int| 0 <= k < (a + b).len() && (a + b)[k] == '§';
            if k < a.len() {
                assert(a.contains(a[k]));
            } else {
                assert(b.contains(b[k - a.len()]));
            }
        }
    }
}

/// The plain text of a component is the text of its spans before merging, and holds no formatting
/// code.
pub proof fn plain_text_is_clean(c: ComponentView)
    ensures
        plain_of(c) == texts(flat(c, plain_style())),
        !plain_of(c).contains('§'),
{
    merging_keeps_text(flat(c, plain_style()));
    spans_are_clean(c);
    lemma_texts_clean(spans_of(c));
}

proof fn lemma_ok_concat(a: Seq<SpanView>, b: Seq<SpanView>)
    requires
        spans_ok(a),
        spans_ok(b),
    ensures
        spans_ok(a + b),
{
    assert forall|i: int| 0 <= i < (a + b).len() implies style_ok(
        #[trigger] (a + b)[i].style,
    ) by {
        if i < a.len() {
            assert(style_ok(a[i].style));
        } else {
            assert(style_ok(b[i - a.len()].style));
        }
    }
}

proof fn lemma_expanded_ok(
    t: Seq<char>,
    got: Seq<char>,
    cur: ResolvedStyle,
    base: ResolvedStyle,
)
    requires
        style_ok(cur),
        style_ok(base),
    ensures
        spans_ok(expanded(t, got, cur, base)),
    decreases t.len(),
{
    if t.len() > 0 && t[0] != '§' {
        lemma_expanded_ok(t.skip(1), got.push(t[0]), cur, base);
    } else if t.len() > 1 {
        let (style, n) = after_code(cur, t[1], t.skip(2), base);
        lemma_expanded_ok(t.skip((2 + n) as int), Seq::empty(), style, base);
        lemma_ok_concat(
            one_span(got, cur),
            expanded(t.skip((2 + n) as int), Seq::empty(), style, base),
        );
    }
}

proof fn lemma_flat_ok(c: ComponentView, inherited: ResolvedStyle)
    requires
        colors_ok(c),
        style_ok(inherited),
    ensures
        spans_ok(flat(c, inherited)),
    decreases c, 1nat,
{
    let style = resolved(inherited, c.style);
    lemma_expanded_ok(content(c), Seq::empty(), style, style);
    lemma_flat_all_ok(c.extra, style);
    lemma_ok_concat(expanded(content(c), Seq::empty(), style, style), flat_all(c.extra, style));
}

proof fn lemma_flat_all_ok(list: Seq<ComponentView>, inherited: ResolvedStyle)
    requires
        all_colors_ok(list),
        style_ok(inherited),
    ensures
        spans_ok(flat_all(list, inherited)),
    decreases list,
{
    if list.len() > 0 {
        lemma_flat_all_ok(list.drop_last(), inherited);
        lemma_flat_ok(list.last(), inherited);
        lemma_ok_concat(flat_all(list.drop_last(), inherited), flat(list.last(), inherited));
    }
}

proof fn lemma_merged_ok(spans: Seq<SpanView>)
    requires
        spans_ok(spans),
    ensures
        spans_ok(merged(spans)),
    decreases spans.len(),
{
    if spans.len() > 0 {
        assert(style_ok(spans[spans.len() - 1].style));
        assert forall|i: int| 0 <= i < spans.drop_last().len() implies style_ok(
            #[trigger] spans.drop_last()[i].style,
        ) by {
            assert(spans.drop_last()[i] == spans[i]);
        }
        lemma_merged_ok(spans.drop_last());
    }
}

/// Where every colour of a component is one that there is, so is every colour of its spans.
pub proof fn spans_keep_known_colors(c: ComponentView)
    requires
        colors_ok(c),
    ensures
        spans_ok(spans_of(c)),
{
    lemma_flat_ok(c, plain_style());
    lemma_merged_ok(flat(c, plain_style()));
}

// ---- from JSON ----

/// The style that the members of an object describe. A flag may be written as a text; a colour
/// that is not known counts as none.
pub open spec fn style_of(m: Seq<(Seq<char>, JsonView)>) -> StyleView {
    StyleView {
        color: match json::text_of(json::find(m, "color"@)) {
            Some(s) => color::parsed(s),
            None => None,
        },
        bold: json::truth_of(json::find(m, "bold"@)),
        italic: json::truth_of(json::find(m, "italic"@)),
        underlined: json::truth_of(json::find(m, "underlined"@)),
        strikethrough: json::truth_of(json::find(m, "strikethrough"@)),
        obfuscated: json::truth_of(json::find(m, "obfuscated"@)),
        font: json::text_of(json::find(m, "font"@)),
    }
}

/// The component that a JSON value describes. A text, number or truth value is that text; an
/// array is its first component, with the others as further children; of an object, members of a
/// wrong type count as missing.
pub open spec fn component_of(v: JsonView) -> ComponentView
    decreases v,
{
    match v {
        JsonView::Null => text_view(Seq::empty()),
        JsonView::Bool(b) => text_view(if b { "true"@ } else { "false"@ }),
        JsonView::Number(_, t) => text_view(t),
        JsonView::Text(s) => text_view(s),
        JsonView::Array(a) => if a.len() == 0 {
            text_view(Seq::empty())
        } else {
            let root = component_of(a[0]);
            ComponentView { extra: root.extra + components_of(a.skip(1)), ..root }
        },
        JsonView::Object(m) => ComponentView {
            text: or_else(json::text_of(json::find(m, "text"@)), Seq::empty()),
            translate: json::text_of(json::find(m, "translate"@)),
            with: match json::find(m, "with"@) {
                Some(JsonView::Array(a)) => components_of(a),
                _ => Seq::empty(),
            },
            fallback: json::text_of(json::find(m, "fallback"@)),
            extra: match json::find(m, "extra"@) {
                Some(JsonView::Array(a)) => components_of(a),
                _ => Seq::empty(),
            },
            style: style_of(m),
        },
    }
}

/// The components that several JSON values describe.
pub open spec fn components_of(list: Seq<JsonView>) -> Seq<ComponentView>
    decreases list,
{
    if list.len() == 0 {
        Seq::empty()
    } else {
        components_of(list.drop_last()).push(component_of(list.last()))
    }
}

/// The style that the members of an object describe.
pub fn parse_style(v: &Json) -> (r: Style)
    requires
        v is Object,
    ensures
        r.model() == style_of(v.model()->Object_0),
        r.color matches Some(c) ==> c.wf(),
{
    let color = match v.text_member("color") {
        Some(s) => color::parse(s.as_str()),
        None => None,
    };
    Style {
        color,
        bold: v.flag_member("bold"),
        italic: v.flag_member("italic"),
        underlined: v.flag_member("underlined"),
        strikethrough: v.flag_member("strikethrough"),
        obfuscated: v.flag_member("obfuscated"),
        font: v.text_member("font"),
    }
}

/// The components that the values from `from` on describe, appended to `out`.
fn append_components(list: &Vec<Json>, from: usize, out: &mut Vec<Component>)
    requires
        from <= list@.len(),
    ensures
        models(final(out)@) == models(old(out)@) + components_of(
            json::models(list@).skip(from as int),
        ),
    decreases json::models(list@),
{
    let ghost all = json::models(list@);
    let ghost rest = all.skip(from as int);
    let ghost before = models(out@);
    assert(rest.take(0) =~= Seq::empty());
    for i in from..list.len()
        invariant
            from <= i <= list@.len(),
            all == json::models(list@),
            rest == all.skip(from as int),
            models(out@) =~= before + components_of(rest.take(i - from)),
    {
        let ghost k = i - from;
        assert(rest.take(k + 1).drop_last() =~= rest.take(k));
        assert(rest.take(k + 1).last() == all[i as int]);
        assert(all[i as int] == list@[i as int].model());
        let ghost prior = models(out@);
        out.push(Component::from_json(&list[i]));
        assert(models(out@) =~= prior.push(component_of(all[i as int])));
    }
    assert(rest.take(rest.len() as int) =~= rest);
}

/// The components of an array member with this name.
fn components_member(v: &Json, key: &str) -> (r: Vec<Component>)
    requires
        v is Object,
    ensures
        models(r@) == (match json::find(v.model()->Object_0, key@) {
            Some(JsonView::Array(a)) => components_of(a),
            _ => Seq::empty(),
        }),
    decreases v.model(), 0nat,
{
    let mut out: Vec<Component> = Vec::new();
    assert(models(out@) =~= Seq::empty());
    if let Some(j) = v.get(key) {
        if let Some(a) = j.as_array() {
            let ghost items = json::models(a@);
            proof {
                let m = v.model()->Object_0;
                assert(decreases_to!(v.model() => m[json::find_index(m, key@) as int].1));
                assert(items.skip(0) =~= items);
            }
            append_components(a, 0, &mut out);
            assert(models(out@) =~= components_of(items));
        }
    }
    out
}

impl Component {
    /// The component that a JSON value describes. Nothing is an error.
    pub fn from_json(v: &Json) -> (r: Self)
        ensures
            r.model() == component_of(v.model()),
        decreases v.model(), 1nat,
    {
        proof {
            reveal_strlit("");
        }
        match v {
            Json::Null => Component::default(),
            Json::Bool(b) => if *b {
                Component::text("true")
            } else {
                Component::text("false")
            },
            Json::Number(_, t) => Component::text(t.as_str()),
            Json::Text(s) => Component::text(s.as_str()),
            Json::Array(a) => {
                assert(v.model()->Array_0 =~= json::models(a@));
                if a.len() == 0 {
                    Component::default()
                } else {
                    assert(json::models(a@)[0] == a@[0].model());
                    let mut root = Component::from_json(&a[0]);
                    let ghost old_root = root;
                    let mut extra: Vec<Component> = Vec::new();
                    extra.append(&mut root.extra);
                    append_components(a, 1, &mut extra);
                    root.extra = extra;
                    assert(root.model().extra =~= models(extra@));
                    assert(old_root.model().extra =~= models(old_root.extra@));
                    assert(root.model().with =~= old_root.model().with);
                    root
                }
            },
            Json::Object(_) => {
                let shown = match v.text_member("text") {
                    Some(s) => s,
                    None => String::new(),
                };
                let r = Component {
                    text: shown,
                    translate: v.text_member("translate"),
                    with: components_member(v, "with"),
                    fallback: v.text_member("fallback"),
                    extra: components_member(v, "extra"),
                    style: parse_style(v),
                };
                assert(r.model().with =~= models(r.with@));
                assert(r.model().extra =~= models(r.extra@));
                r
            },
        }
    }
}

impl Component {
    /// Whether each colour of the component and its children is one that there is.
    pub fn colors_are_known(&self) -> (r: bool)
        ensures
            r == colors_ok(self.model()),
        decreases self,
    {
        if let Some(Color::Named(i)) = self.style.color {
            if i >= color::NAMED_COUNT {
                return false;
            }
        }
        let ghost all = self.model().extra;
        assert(all =~= models(self.extra@));
        assert(all.take(0) =~= Seq::empty());
        for i in 0..self.extra.len()
            invariant
                all == self.model().extra,
                all == models(self.extra@),
                self.model().style.color matches Some(x) ==> x.wf(),
                all_colors_ok(all.take(i as int)),
        {
            assert(all.take(i + 1).drop_last() =~= all.take(i as int));
            assert(all.take(i + 1).last() == self.extra@[i as int].model());
            if !self.extra[i].colors_are_known() {
                proof {
                    lemma_all_colors_ok_prefix(all, (i + 1) as nat);
                }
                return false;
            }
        }
        assert(all.take(all.len() as int) =~= all);
        true
    }
}

proof fn lemma_all_colors_ok_prefix(list: Seq<ComponentView>, k: nat)
    requires
        k <= list.len(),
    ensures
        all_colors_ok(list) ==> all_colors_ok(list.take(k as int)),
    decreases list.len(),
{
    if k == list.len() {
        assert(list.take(k as int) =~= list);
    } else {
        lemma_all_colors_ok_prefix(list.drop_last(), k);
        assert(list.drop_last().take(k as int) =~= list.take(k as int));
    }
}

proof fn lemma_name_index(name: Seq<char>, from: nat)
    ensures
        color::name_index(name, from) matches Some(i) ==> i < color::NAMED_COUNT,
    decreases color::NAMED_COUNT - from,
{
    if from < color::NAMED_COUNT {
        lemma_name_index(name, from + 1);
    }
}

proof fn lemma_all_colors_ok_concat(a: Seq<ComponentView>, b: Seq<ComponentView>)
    requires
        all_colors_ok(a),
        all_colors_ok(b),
    ensures
        all_colors_ok(a + b),
    decreases b.len(),
{
    if b.len() == 0 {
        assert(a + b =~= a);
    } else {
        lemma_all_colors_ok_concat(a, b.drop_last());
        assert((a + b).drop_last() =~= a + b.drop_last());
        assert((a + b).last() == b.last());
    }
}

/// Every colour of a component that was read from JSON is one that there is.
pub proof fn json_components_have_known_colors(v: JsonView)
    ensures
        colors_ok(component_of(v)),
    decreases v,
{
    match v {
        JsonView::Array(a) => {
            if a.len() > 0 {
                json_components_have_known_colors(a[0]);
                lemma_components_ok(a.skip(1));
                lemma_all_colors_ok_concat(component_of(a[0]).extra, components_of(a.skip(1)));
            }
        },
        JsonView::Object(m) => {
            let i = json::find_index(m, "extra"@) as int;
            if i < m.len() && m[i].1 is Array {
                lemma_components_ok(m[i].1->Array_0);
            }
            if let Some(s) = json::text_of(json::find(m, "color"@)) {
                lemma_name_index(s, 0);
            }
        },
        _ => {},
    }
}

proof fn lemma_components_ok(list: Seq<JsonView>)
    ensures
        all_colors_ok(components_of(list)),
    decreases list,
{
    if list.len() > 0 {
        lemma_components_ok(list.drop_last());
        json_components_have_known_colors(list.last());
        assert(components_of(list).drop_last() =~= components_of(list.drop_last()));
    }
}

/// A colour code sets the colour and clears every style flag; so does the code for gold of Bedrock
/// servers.
pub proof fn color_codes_clear_flags(
    cur: ResolvedStyle,
    code: char,
    t: Seq<char>,
    base: ResolvedStyle,
)
    requires
        color::code_index(code) is Some || text::lower(code) == 'g',
    ensures
        after_code(cur, code, t, base).1 == 0,
        after_code(cur, code, t, base).0 == (ResolvedStyle {
            color: Some(
                if text::lower(code) == 'g' {
                    Color::Rgb(0xDD, 0xD6, 0x05)
                } else {
                    Color::Named(color::code_index(code)->0)
                },
            ),
            bold: false,
            italic: false,
            underlined: false,
            strikethrough: false,
            obfuscated: false,
        }),
{
    assert(text::lower(text::lower(code)) == text::lower(code));
}

/// A colour of six digits clears every style flag too, and takes up its digits with their marks.
pub proof fn hex_codes_clear_flags(
    cur: ResolvedStyle,
    code: char,
    t: Seq<char>,
    base: ResolvedStyle,
)
    requires
        text::lower(code) == 'x',
        has_hex_pairs(t),
    ensures
        after_code(cur, code, t, base).1 == 12,
        after_code(cur, code, t, base).0.color matches Some(Color::Rgb(_, _, _)),
        after_code(cur, code, t, base).0 == colored(after_code(cur, code, t, base).0.color->0),
{
}

/// The reset code goes back to the style of the component, whatever came before.
pub proof fn reset_code_restores_the_component(
    cur: ResolvedStyle,
    code: char,
    t: Seq<char>,
    base: ResolvedStyle,
)
    requires
        text::lower(code) == 'r',
    ensures
        after_code(cur, code, t, base) == (base, 0nat),
{
}

/// Every other code keeps the colour and takes no flag away.
pub proof fn style_codes_only_add(cur: ResolvedStyle, code: char, t: Seq<char>, base: ResolvedStyle)
    requires
        color::code_index(code) is None,
        text::lower(code) != 'g',
        text::lower(code) != 'r',
        text::lower(code) != 'x' || !has_hex_pairs(t),
    ensures
        ({
            let next = after_code(cur, code, t, base).0;
            &&& next.color == cur.color
            &&& cur.bold ==> next.bold
            &&& cur.italic ==> next.italic
            &&& cur.underlined ==> next.underlined
            &&& cur.strikethrough ==> next.strikethrough
            &&& cur.obfuscated ==> next.obfuscated
        }),
{
    assert(text::lower(text::lower(code)) == text::lower(code));
}

/// A component that says nothing about its style has the one that it inherits.
pub proof fn unset_style_is_inherited(inherited: ResolvedStyle, font: Option<Seq<char>>)
    ensures
        resolved(inherited, StyleView { font, ..inheriting() }) == inherited,
{
}

/// An array of one component is that component.
pub proof fn array_of_one_is_its_item(v: JsonView)
    ensures
        component_of(JsonView::Array(seq![v])) == component_of(v),
{
    let a = seq![v];
    let root = component_of(v);
    assert(component_of(a[0]) == root);
    assert(a.skip(1) =~= Seq::empty());
    assert(components_of(a.skip(1)) =~= Seq::empty());
    assert(root.extra + components_of(a.skip(1)) =~= root.extra);
    assert(component_of(JsonView::Array(a)) =~= root);
}

// ---- what a component looks like ----

/// What a component sets, its spans have, whatever is inherited; what it leaves open, they inherit.
pub proof fn own_style_wins(c: ComponentView, inherited: ResolvedStyle)
    requires
        content(c).len() > 0,
        !content(c).contains('§'),
        c.extra.len() == 0,
    ensures
        flat(c, inherited).len() == 1,
        flat(c, inherited)[0].text == content(c),
        ({
            let got = flat(c, inherited)[0].style;
            let own = c.style;
            &&& own.color matches Some(x) ==> got.color == Some(x)
            &&& own.color is None ==> got.color == inherited.color
            &&& own.bold matches Some(b) ==> got.bold == b
            &&& own.bold is None ==> got.bold == inherited.bold
            &&& own.italic matches Some(b) ==> got.italic == b
            &&& own.italic is None ==> got.italic == inherited.italic
            &&& own.underlined matches Some(b) ==> got.underlined == b
            &&& own.underlined is None ==> got.underlined == inherited.underlined
            &&& own.strikethrough matches Some(b) ==> got.strikethrough == b
            &&& own.strikethrough is None ==> got.strikethrough == inherited.strikethrough
            &&& own.obfuscated matches Some(b) ==> got.obfuscated == b
            &&& own.obfuscated is None ==> got.obfuscated == inherited.obfuscated
        }),
{
    let style = resolved(inherited, c.style);
    let t = content(c);
    text_without_codes_is_one_span(t, Seq::empty(), style, style);
    assert(Seq::<char>::empty() + t =~= t);
    assert(flat_all(c.extra, style) =~= Seq::empty());
    assert(flat(c, inherited) =~= seq![SpanView { text: t, style }]);
}

/// A component without a text around one with a text shows that text: in the inner style where that
/// says something, else in the outer one, else plain.
pub proof fn children_look_like_themselves(parent: ComponentView, child: ComponentView)
    requires
        parent.text.len() == 0,
        parent.translate is None,
        parent.extra == seq![child],
        child.text.len() > 0,
        !child.text.contains('§'),
        child.extra.len() == 0,
    ensures
        spans_of(parent).len() == 1,
        spans_of(parent)[0].text == child.text,
        ({
            let got = spans_of(parent)[0].style;
            let (a, b) = (parent.style, child.style);
            &&& got.color == (if b.color is Some {
                b.color
            } else {
                a.color
            })
            &&& got.bold == (b.bold == Some(true) || (b.bold is None && a.bold == Some(true)))
            &&& got.italic == (b.italic == Some(true) || (b.italic is None && a.italic == Some(
                true,
            )))
            &&& got.underlined == (b.underlined == Some(true) || (b.underlined is None
                && a.underlined == Some(true)))
            &&& got.strikethrough == (b.strikethrough == Some(true) || (b.strikethrough is None
                && a.strikethrough == Some(true)))
            &&& got.obfuscated == (b.obfuscated == Some(true) || (b.obfuscated is None
                && a.obfuscated == Some(true)))
        }),
{
    let style = resolved(plain_style(), parent.style);
    own_style_wins(child, style);
    let list = parent.extra;
    assert(list.last() == child);
    assert(list.drop_last() =~= Seq::empty());
    assert(flat_all(list.drop_last(), style) =~= Seq::empty());
    assert(flat_all(list, style) =~= flat(child, style));
    assert(expanded(content(parent), Seq::empty(), style, style) =~= Seq::empty());
    let all = flat(parent, plain_style());
    assert(all =~= flat(child, style));
    assert(all.drop_last() =~= Seq::empty());
    assert(merged(all.drop_last()) =~= Seq::empty());
    assert(merged(all) =~= seq![all[0]]);
}

/// A component's own text comes first, in its style; its children follow in their order.
pub proof fn children_follow_their_parent(
    c: ComponentView,
    inherited: ResolvedStyle,
    a: Seq<ComponentView>,
    b: ComponentView,
)
    requires
        c.extra == a.push(b),
        content(c).len() > 0,
        !content(c).contains('§'),
    ensures
        ({
            let alone = flat(ComponentView { extra: a, ..c }, inherited);
            let style = alone[0].style;
            &&& alone.len() >= 1
            &&& alone[0].text == content(c)
            &&& flat(c, inherited) == alone + flat(b, style)
        }),
{
    let style = resolved(inherited, c.style);
    let d = ComponentView { extra: a, ..c };
    text_without_codes_is_one_span(content(c), Seq::empty(), style, style);
    assert(Seq::<char>::empty() + content(c) =~= content(c));
    assert(content(d) == content(c));
    assert(c.extra.drop_last() =~= a);
    assert(c.extra.last() == b);
    assert(flat(c, inherited) =~= flat(d, inherited) + flat(b, style));
}

/// The text of a component counts before its translation; a translation shows its fallback before
/// its key.
pub proof fn texts_come_before_translations(c: ComponentView)
    ensures
        c.text.len() > 0 ==> content(c) == c.text,
        c.text.len() == 0 && c.translate is None ==> content(c).len() == 0,
        c.text.len() == 0 ==> {
            &&& c.translate is Some && c.fallback is None && !c.translate->0.contains('%')
                ==> content(c) == c.translate->0
            &&& c.translate is Some && c.fallback is Some && !c.fallback->0.contains('%')
                ==> content(c) == c.fallback->0
        },
{
    if let Some(key) = c.translate {
        if !key.contains('%') {
            template_without_slots_is_kept(key, plains(c.with));
        }
        if let Some(f) = c.fallback {
            if !f.contains('%') {
                template_without_slots_is_kept(f, plains(c.with));
            }
        }
    }
}

/// A `%s` shows the next argument that there is, and what follows goes on with the one after it.
pub proof fn slots_take_the_arguments_in_order(t: Seq<char>, args: Seq<Seq<char>>, next: nat)
    ensures
        next < args.len() ==> filled(seq!['%', 's'] + t, args, next) == args[next as int] + filled(
            t,
            args,
            next + 1,
        ),
        next >= args.len() ==> filled(seq!['%', 's'] + t, args, next) == filled(t, args, next + 1),
{
    let u = seq!['%', 's'] + t;
    assert(u.skip(2) =~= t);
    assert(Seq::<char>::empty() + filled(t, args, next + 1) =~= filled(t, args, next + 1));
}

/// A code styles the text behind it, up to the next code; the text before it keeps its style.
pub proof fn codes_style_what_follows(
    a: Seq<char>,
    code: char,
    b: Seq<char>,
    cur: ResolvedStyle,
    base: ResolvedStyle,
)
    requires
        !a.contains('§'),
        !b.contains('§'),
        a.len() > 0,
        b.len() > 0,
    ensures
        expanded(a + seq!['§', code] + b, Seq::empty(), cur, base) == seq![
            SpanView { text: a, style: cur },
            SpanView { text: b, style: after_code(cur, code, b, base).0 },
        ],
{
    lemma_expanded_prefix(a, seq!['§', code] + b, Seq::empty(), cur, base);
    let t = seq!['§', code] + b;
    assert(a + seq!['§', code] + b =~= a + t);
    assert(Seq::<char>::empty() + a =~= a);
    assert(t.skip(2) =~= b);
    assert(after_code(cur, code, b, base).1 == 0) by {
        if has_hex_pairs(b) {
            assert(b[2 * 0int] == '§');
            assert(b.contains(b[0]));
        }
    }
    let style = after_code(cur, code, b, base).0;
    assert(t.skip((2 + after_code(cur, code, b, base).1) as int) =~= b);
    text_without_codes_is_one_span(b, Seq::empty(), style, base);
    assert(Seq::<char>::empty() + b =~= b);
    assert(one_span(a, cur) + one_span(b, style) =~= seq![
        SpanView { text: a, style: cur },
        SpanView { text: b, style },
    ]);
}

proof fn lemma_expanded_prefix(
    a: Seq<char>,
    t: Seq<char>,
    got: Seq<char>,
    cur: ResolvedStyle,
    base: ResolvedStyle,
)
    requires
        !a.contains('§'),
    ensures
        expanded(a + t, got, cur, base) == expanded(t, got + a, cur, base),
    decreases a.len(),
{
    if a.len() == 0 {
        assert(a + t =~= t);
        assert(got + a =~= got);
    } else {
        assert(a.contains(a[0]));
        let u = a.skip(1);
        assert(!u.contains('§')) by {
            if u.contains('§') {
                let k = choose|k: int| 0 <= k < u.len() && u[k] == '§';
                assert(a[k + 1] == '§');
            }
        }
        lemma_expanded_prefix(u, t, got.push(a[0]), cur, base);
        assert((a + t).skip(1) =~= u + t);
        assert(got.push(a[0]) + u =~= got + a);
    }
}

/// Each style code sets its own flag and leaves the others and the colour alone; a code that is none
/// changes nothing.
pub proof fn style_codes_set_their_flag(cur: ResolvedStyle, t: Seq<char>, base: ResolvedStyle)
    ensures
        after_code(cur, 'k', t, base).0 == (ResolvedStyle { obfuscated: true, ..cur }),
        after_code(cur, 'l', t, base).0 == (ResolvedStyle { bold: true, ..cur }),
        after_code(cur, 'm', t, base).0 == (ResolvedStyle { strikethrough: true, ..cur }),
        after_code(cur, 'n', t, base).0 == (ResolvedStyle { underlined: true, ..cur }),
        after_code(cur, 'o', t, base).0 == (ResolvedStyle { italic: true, ..cur }),
        after_code(cur, 'r', t, base).0 == base,
        after_code(cur, 'z', t, base).0 == cur,
        forall|c: char, d: char|
            text::lower(c) == text::lower(d) ==> #[trigger] after_code(cur, c, t, base)
                == #[trigger] after_code(cur, d, t, base),
{
}

/// Six pairs behind `§x` give the channels of the colour, two digits each.
pub proof fn hex_codes_give_their_color(cur: ResolvedStyle, t: Seq<char>, base: ResolvedStyle)
    requires
        has_hex_pairs(t),
    ensures
        after_code(cur, 'x', t, base).0.color == Some(
            Color::Rgb(
                (16 * color::hex_digit_value(t[1]) + color::hex_digit_value(t[3])) as u8,
                (16 * color::hex_digit_value(t[5]) + color::hex_digit_value(t[7])) as u8,
                (16 * color::hex_digit_value(t[9]) + color::hex_digit_value(t[11])) as u8,
            ),
        ),
{
    let p = hex_pairs(t);
    assert(text::is_hex_digit(t[2 * 0int + 1]) && text::is_hex_digit(t[2 * 1int + 1])
        && text::is_hex_digit(t[2 * 2int + 1]) && text::is_hex_digit(t[2 * 3int + 1])
        && text::is_hex_digit(t[2 * 4int + 1]) && text::is_hex_digit(t[2 * 5int + 1]));
    assert forall|i: int| 0 <= i < 6 implies text::is_hex_digit(#[trigger] p[i]) by {}
    color::lemma_six_digits(p);
}

/// The characters of spans with their styles.
pub open spec fn styled_chars(spans: Seq<SpanView>) -> Seq<(char, ResolvedStyle)>
    decreases spans.len(),
{
    if spans.len() == 0 {
        Seq::empty()
    } else {
        let s = spans.last();
        styled_chars(spans.drop_last()) + Seq::new(s.text.len(), |i: int| (s.text[i], s.style))
    }
}

/// Merging changes no character's style.
pub proof fn merging_keeps_styles(spans: Seq<SpanView>)
    ensures
        styled_chars(merged(spans)) == styled_chars(spans),
    decreases spans.len(),
{
    if spans.len() > 0 {
        let before = spans.drop_last();
        let s = spans.last();
        let m = merged(before);
        merging_keeps_styles(before);
        if m.len() > 0 && m.last().style == s.style {
            assert(merged(spans).drop_last() =~= m.drop_last());
            assert(styled_chars(merged(spans)) =~= styled_chars(spans));
        } else {
            assert(merged(spans).drop_last() =~= m);
            assert(styled_chars(merged(spans)) =~= styled_chars(spans));
        }
    }
}

/// A component is read from an object member by member: text, translation with arguments and
/// fallback, children, colour and flags.
pub proof fn objects_are_read(m: Seq<(Seq<char>, JsonView)>, t: Seq<char>, b: bool, a: Seq<JsonView>)
    ensures
        ({
            let c = component_of(JsonView::Object(m));
            let said = Some(JsonView::Text(t));
            let flag = Some(JsonView::Bool(b));
            let list = Some(JsonView::Array(a));
            &&& json::find(m, "text"@) == said ==> c.text == t
            &&& json::find(m, "text"@) is None ==> c.text.len() == 0
            &&& json::find(m, "translate"@) == said ==> c.translate == Some(t)
            &&& json::find(m, "translate"@) is None ==> c.translate is None
            &&& json::find(m, "fallback"@) == said ==> c.fallback == Some(t)
            &&& json::find(m, "color"@) == said ==> c.style.color == color::parsed(t)
            &&& json::find(m, "color"@) is None ==> c.style.color is None
            &&& json::find(m, "bold"@) == flag ==> c.style.bold == Some(b)
            &&& json::find(m, "italic"@) == flag ==> c.style.italic == Some(b)
            &&& json::find(m, "underlined"@) == flag ==> c.style.underlined == Some(b)
            &&& json::find(m, "strikethrough"@) == flag ==> c.style.strikethrough == Some(b)
            &&& json::find(m, "obfuscated"@) == flag ==> c.style.obfuscated == Some(b)
            &&& json::find(m, "bold"@) is None ==> c.style.bold is None
            &&& json::find(m, "italic"@) is None ==> c.style.italic is None
            &&& json::find(m, "extra"@) == list ==> c.extra.len() == a.len() && forall|i: int|
                0 <= i < a.len() ==> c.extra[i] == component_of(#[trigger] a[i])
            &&& json::find(m, "extra"@) is None ==> c.extra.len() == 0
            &&& json::find(m, "with"@) == list ==> c.with.len() == a.len() && forall|i: int|
                0 <= i < a.len() ==> c.with[i] == component_of(#[trigger] a[i])
            &&& json::find(m, "with"@) is None ==> c.with.len() == 0
        }),
{
    lemma_components_each(a);
}

proof fn lemma_components_each(a: Seq<JsonView>)
    ensures
        components_of(a).len() == a.len(),
        forall|i: int|
            0 <= i < a.len() ==> components_of(a)[i] == component_of(#[trigger] a[i]),
    decreases a.len(),
{
    if a.len() > 0 {
        let before = a.drop_last();
        lemma_components_each(before);
        assert forall|i: int| 0 <= i < a.len() implies components_of(a)[i] == component_of(
            #[trigger] a[i],
        ) by {
            if i < before.len() {
                assert(before[i] == a[i]);
            }
        }
    }
}

/// Texts, numbers and truth values are components that show themselves; the first item of an array
/// is its root, and the others follow as children.
pub proof fn plain_values_show_themselves(t: Seq<char>, n: Option<i64>, a: Seq<JsonView>)
    requires
        a.len() > 0,
    ensures
        content(component_of(JsonView::Text(t))) == t,
        content(component_of(JsonView::Number(n, t))) == t,
        content(component_of(JsonView::Bool(true))) == "true"@,
        content(component_of(JsonView::Bool(false))) == "false"@,
        content(component_of(JsonView::Null)).len() == 0,
        component_of(JsonView::Text(t)).extra.len() == 0,
        component_of(JsonView::Array(a)).text == component_of(a[0]).text,
        component_of(JsonView::Array(a)).style == component_of(a[0]).style,
        component_of(JsonView::Array(a)).extra.len() == component_of(a[0]).extra.len() + a.len() - 1,
        forall|i: int|
            1 <= i < a.len() ==> component_of(JsonView::Array(a)).extra[component_of(
                a[0],
            ).extra.len() + i - 1] == component_of(#[trigger] a[i]),
{
    reveal_strlit("true");
    reveal_strlit("false");
    let rest = a.skip(1);
    lemma_components_each(rest);
    assert forall|i: int| 1 <= i < a.len() implies component_of(
        JsonView::Array(a),
    ).extra[component_of(a[0]).extra.len() + i - 1] == component_of(#[trigger] a[i]) by {
        assert(rest[i - 1] == a[i]);
    }
}

/// Spans for a terminal stand one after the other, each behind the parameters of its style and in
/// front of a reset.
pub proof fn terminal_text_has_its_style(spans: Seq<SpanView>, s: SpanView)
    ensures
        ansi(spans.push(s)) == ansi(spans) + ansi_span(s),
        s.style == plain_style() ==> ansi_span(s) == s.text + "\x1b[0m"@,
        s.style == (ResolvedStyle { bold: true, ..plain_style() }) ==> ansi_span(s) == "\x1b["@
            + "1"@ + "m"@ + s.text + "\x1b[0m"@,
        s.style == (ResolvedStyle { italic: true, ..plain_style() }) ==> ansi_span(s) == "\x1b["@
            + "3"@ + "m"@ + s.text + "\x1b[0m"@,
        s.style == (ResolvedStyle { underlined: true, ..plain_style() }) ==> ansi_span(s)
            == "\x1b["@ + "4"@ + "m"@ + s.text + "\x1b[0m"@,
        s.style == (ResolvedStyle { strikethrough: true, ..plain_style() }) ==> ansi_span(s)
            == "\x1b["@ + "9"@ + "m"@ + s.text + "\x1b[0m"@,
        (s.style.color matches Some(c) ==> s.style == (ResolvedStyle {
            color: Some(c),
            ..plain_style()
        }) ==> ansi_span(s) == "\x1b["@ + ("38;2;"@ + text::decimal(c.value().0 as nat) + ";"@
            + text::decimal(c.value().1 as nat) + ";"@ + text::decimal(c.value().2 as nat)) + "m"@
            + s.text + "\x1b[0m"@),
        ansi_codes(s.style).len() == (if s.style.color is Some {
            1int
        } else {
            0
        }) + (if s.style.bold {
            1int
        } else {
            0
        }) + (if s.style.italic {
            1int
        } else {
            0
        }) + (if s.style.underlined {
            1int
        } else {
            0
        }) + (if s.style.strikethrough {
            1int
        } else {
            0
        }),
{
    assert(spans.push(s).drop_last() =~= spans);
    let codes = ansi_codes(s.style);
    if codes.len() == 0 {
        assert(Seq::<char>::empty() + s.text =~= s.text);
    }
    if codes.len() == 1 {
        assert(text::joined(codes, ";"@) == codes[0]);
    }
}

/// A numbered slot shows the argument with its number, counted from one, or nothing where there is
/// none, and leaves the order of the others alone.
pub proof fn numbered_slots_take_their_argument(
    digits: Seq<char>,
    n: usize,
    t: Seq<char>,
    args: Seq<Seq<char>>,
    next: nat,
)
    requires
        digits.len() > 0,
        forall|i: int| 0 <= i < digits.len() ==> text::is_digit(#[trigger] digits[i]),
        text::as_usize(digits) == Some(n),
    ensures
        1 <= n <= args.len() ==> filled(seq!['%'] + digits + seq!['$', 's'] + t, args, next)
            == args[n - 1] + filled(t, args, next),
        n == 0 || n > args.len() ==> filled(seq!['%'] + digits + seq!['$', 's'] + t, args, next)
            == filled(t, args, next),
{
    let u = seq!['%'] + digits + seq!['$', 's'] + t;
    let rest = u.skip(1);
    let after = seq!['$', 's'] + t;
    assert(rest =~= digits + after);
    lemma_digits_run(digits, after);
    assert(u[1] == digits[0]);
    assert(text::is_digit(digits[0]));
    assert(u.skip((1 + digits.len()) as int) =~= after);
    assert(u.subrange(1, (1 + digits.len()) as int) =~= digits);
    assert(after.skip(2) =~= t);
    assert(Seq::<char>::empty() + filled(t, args, next) =~= filled(t, args, next));
}

proof fn lemma_digits_run(digits: Seq<char>, after: Seq<char>)
    requires
        forall|i: int| 0 <= i < digits.len() ==> text::is_digit(#[trigger] digits[i]),
        after.len() > 0,
        !text::is_digit(after[0]),
    ensures
        digit_run(digits + after) == digits.len(),
    decreases digits.len(),
{
    if digits.len() == 0 {
        assert(digits + after =~= after);
    } else {
        let rest = digits.drop_first();
        assert(text::is_digit(digits[0]));
        assert((digits + after).drop_first() =~= rest + after);
        assert forall|i: int| 0 <= i < rest.len() implies text::is_digit(#[trigger] rest[i]) by {
            assert(rest[i] == digits[i + 1]);
        }
        lemma_digits_run(rest, after);
    }
}

/// The arguments of a translation are the plain texts of its components.
pub proof fn translations_show_plain_texts(c: ComponentView, a: ComponentView)
    requires
        c.text.len() == 0,
        c.translate == Some(seq!['%', 's']),
        c.fallback is None,
        c.with == seq![a],
    ensures
        content(c) == plain_of(a),
{
    let none = Seq::<char>::empty();
    assert(c.with.drop_last() =~= Seq::empty());
    assert(c.with.last() == a);
    assert(plains(c.with.drop_last()) =~= Seq::empty());
    assert(plains(c.with) =~= seq![plain_of(a)]);
    slots_take_the_arguments_in_order(none, seq![plain_of(a)], 0);
    assert(seq!['%', 's'] + none =~= seq!['%', 's']);
    assert(filled(none, seq![plain_of(a)], 1) =~= none);
    assert(plain_of(a) + none =~= plain_of(a));
}

/// What spans and components hold is what their fields say.
pub proof fn components_hold_their_fields(c: Component, spans: Seq<Span>, i: int)
    ensures
        c.model().text == c.text@,
        c.model().translate == text::opt_view(c.translate),
        c.model().fallback == text::opt_view(c.fallback),
        c.model().extra.len() == c.extra@.len(),
        c.model().with.len() == c.with@.len(),
        c.model().style.color == c.style.color,
        c.model().style.bold == c.style.bold,
        c.model().style.italic == c.style.italic,
        c.model().style.underlined == c.style.underlined,
        c.model().style.strikethrough == c.style.strikethrough,
        c.model().style.obfuscated == c.style.obfuscated,
        0 <= i < c.extra@.len() ==> c.model().extra[i] == c.extra@[i].model(),
        0 <= i < spans.len() ==> span_views(spans)[i].text == spans[i].text@
            && span_views(spans)[i].style == spans[i].style,
        span_views(spans).len() == spans.len(),
{
}

// ---- copies ----

/// A copy of a style.
fn duplicate_style(s: &Style) -> (r: Style)
    ensures
        r.model() == s.model(),
{
    Style {
        color: s.color,
        bold: s.bold,
        italic: s.italic,
        underlined: s.underlined,
        strikethrough: s.strikethrough,
        obfuscated: s.obfuscated,
        font: s.font.clone(),
    }
}

/// Copies of components.
fn duplicate_all(list: &Vec<Component>) -> (r: Vec<Component>)
    ensures
        models(r@) == models(list@),
    decreases list,
{
    let mut out: Vec<Component> = Vec::new();
    for i in 0..list.len()
        invariant
            models(out@) =~= models(list@).take(i as int),
    {
        let ghost before = models(out@);
        out.push(list[i].duplicate());
        assert(models(out@) =~= before.push(models(list@)[i as int]));
    }
    assert(models(list@).take(list@.len() as int) =~= models(list@));
    out
}

impl Component {
    /// A copy of the component.
    pub fn duplicate(&self) -> (r: Self)
        ensures
            r.model() == self.model(),
        decreases self,
    {
        let r = Component {
            text: self.text.clone(),
            translate: self.translate.clone(),
            with: duplicate_all(&self.with),
            fallback: self.fallback.clone(),
            extra: duplicate_all(&self.extra),
            style: duplicate_style(&self.style),
        };
        assert(r.model().with =~= models(r.with@));
        assert(r.model().extra =~= models(r.extra@));
        assert(self.model().with =~= models(self.with@));
        assert(self.model().extra =~= models(self.extra@));
        r
    }
}

impl Clone for Component {
    fn clone(&self) -> (r: Self)
        ensures
            r.model() == self.model(),
    {
        self.duplicate()
    }
}

} // verus!
