//! The texts around a server's description.

use vstd::prelude::*;
use crate::minecraft::component;
use crate::minecraft::component::{Component, ResolvedStyle, Span, SpanView};
use crate::minecraft::protocol;
use crate::minecraft::protocol::{max_of, PingResult, ResultView};
use crate::minecraft::render::layout;
use crate::minecraft::status;
use crate::minecraft::status::{ModLoader, ModsView, ServerMods, StatusView};
use crate::minecraft::text;

verus! {

/// A text as one plain span.
pub open spec fn plain_line(t: Seq<char>) -> Seq<SpanView> {
    seq![SpanView { text: t, style: component::plain_style() }]
}

/// A text as one plain span.
pub fn line_spans(t: &str) -> (r: Vec<Span>)
    ensures
        component::span_views(r@) == plain_line(t@),
{
    let mut v: Vec<Span> = Vec::new();
    v.push(Span { text: t.to_owned(), style: ResolvedStyle::plain() });
    assert(component::span_views(v@) =~= plain_line(t@));
    v
}

/// A plain line has known colours, and as many characters as its text.
pub proof fn lemma_plain_line(t: Seq<char>)
    ensures
        component::spans_ok(plain_line(t)),
        layout::char_count(plain_line(t)) == t.len(),
{
    let l = plain_line(t);
    assert(l.drop_last() =~= Seq::empty());
    assert(layout::char_count(l.drop_last()) == 0);
}

/// The title: the one that is given, or the address.
pub open spec fn title_of(r: ResultView, title: Option<Seq<char>>) -> Seq<char> {
    match title {
        Some(t) => t,
        None => r.host + ":"@ + text::decimal(r.port as nat),
    }
}

/// The title: the one that is given, or the address.
pub fn title_text(r: &PingResult, title: &Option<String>) -> (t: String)
    ensures
        t@ == title_of(r.model(), text::opt_view(*title)),
{
    match title {
        Some(s) => s.clone(),
        None => {
            let mut s = text::concat(r.address.host.as_str(), ":");
            text::push_decimal(&mut s, r.address.port as u128);
            s
        },
    }
}

/// How many players there are and may be, where the server says so.
pub open spec fn player_count(s: StatusView) -> Seq<SpanView> {
    match s.players {
        Some(p) => plain_line(
            text::signed_decimal(p.online as int) + "/"@ + text::signed_decimal(p.max as int),
        ),
        None => Seq::empty(),
    }
}

/// How many players there are and may be.
pub fn player_count_spans(r: &PingResult) -> (v: Vec<Span>)
    ensures
        component::span_views(v@) == player_count(r.model().status),
{
    match &r.status.players {
        Some(p) => {
            let a = text::signed_decimal_of(p.online);
            let b = text::signed_decimal_of(p.max);
            let mut s = text::concat(a.as_str(), "/");
            s.append(b.as_str());
            line_spans(s.as_str())
        },
        None => {
            let v: Vec<Span> = Vec::new();
            assert(component::span_views(v@) =~= Seq::empty());
            v
        },
    }
}

// ---- the first line ----

/// The version name without formatting codes and without white space at its ends.
pub open spec fn clean_name(name: Option<Seq<char>>) -> Seq<char> {
    match name {
        Some(n) => text::trimmed(component::plain_of(component::text_view(n))),
        None => Seq::empty(),
    }
}

/// The parts of the first line: latency, version, protocol number, and whether the server is an old
/// one.
pub open spec fn first_parts(r: ResultView) -> Seq<Seq<char>> {
    component::one_if(r.latency is Some, text::decimal(r.latency->0 as nat) + "ms"@)
        + component::one_if(
        clean_name(r.status.version.name).len() > 0,
        clean_name(r.status.version.name),
    ) + seq!["协议 "@ + text::signed_decimal(r.status.version.protocol as int)]
        + component::one_if(r.is_legacy, "旧版 ping"@)
}

/// The first line.
pub open spec fn first_line(r: ResultView) -> Seq<SpanView> {
    plain_line(text::joined(first_parts(r), "  ·  "@))
}

/// The first line.
pub fn info_line1(r: &PingResult) -> (v: Vec<Span>)
    ensures
        component::span_views(v@) == first_line(r.model()),
{
    let mut parts: Vec<String> = Vec::new();
    if let Some(ms) = r.latency {
        let d = text::decimal_of(ms);
        parts.push(text::concat(d.as_str(), "ms"));
    }
    if let Some(name) = &r.status.version.name {
        let c = Component::text(name.as_str());
        let p = c.plain();
        let t = text::trim(p.as_str());
        if !t.as_str().is_empty() {
            parts.push(t);
        }
    }
    let n = text::signed_decimal_of(r.status.version.protocol as i64);
    parts.push(text::concat("协议 ", n.as_str()));
    if r.is_legacy {
        parts.push("旧版 ping".to_owned());
    }
    assert(text::views(parts@) =~= first_parts(r.model()));
    let s = text::join(&parts, "  ·  ");
    line_spans(s.as_str())
}

// ---- the second line ----

/// The modpack, where it has a name or a version.
pub open spec fn pack_part(pack: Option<(Seq<char>, Seq<char>)>) -> Option<Seq<char>> {
    match pack {
        Some((name, version)) => {
            let n = text::trimmed(name);
            let v = text::trimmed(version);
            if n.len() > 0 && v.len() > 0 {
                Some("整合包 "@ + n + " "@ + v)
            } else if n.len() > 0 {
                Some("整合包 "@ + n)
            } else if v.len() > 0 {
                Some("整合包 v"@ + v)
            } else {
                None
            }
        },
        None => None,
    }
}

/// The mod loader and how many mods there are, where there are any.
pub open spec fn mods_part(mods: Option<ModsView>) -> Option<Seq<char>> {
    match mods {
        Some(m) => {
            let loader = match m.loader {
                ModLoader::Forge => "Forge"@,
                ModLoader::Modded => "Modded"@,
            };
            match m.mod_count {
                Some(n) => if n == 0 {
                    None
                } else {
                    Some(
                        loader + " · "@ + text::decimal(n) + " 模组"@ + (if m.truncated {
                            "+"@
                        } else {
                            ""@
                        }),
                    )
                },
                None => Some(loader),
            }
        },
        None => None,
    }
}

/// The least number of a list.
pub open spec fn least(list: Seq<i32>) -> Option<i32>
    decreases list.len(),
{
    if list.len() == 0 {
        None
    } else {
        match least(list.drop_last()) {
            Some(m) => if m < list.last() {
                Some(m)
            } else {
                Some(list.last())
            },
            None => Some(list.last()),
        }
    }
}

/// The protocol numbers that the server takes besides, where it says so.
pub open spec fn via_part(list: Seq<i32>) -> Option<Seq<char>> {
    if list.len() == 0 {
        None
    } else {
        let min = least(list)->0;
        let max = protocol::greatest(list)->0;
        Some(
            "Via 兼容 "@ + text::decimal(list.len()) + " 版 · "@ + (if min == max {
                "proto "@ + text::signed_decimal(min as int)
            } else {
                "proto "@ + text::signed_decimal(min as int) + "–"@ + text::signed_decimal(
                    max as int,
                )
            }),
        )
    }
}

/// A list of the text, where there is one.
pub open spec fn listed(t: Option<Seq<char>>) -> Seq<Seq<char>> {
    match t {
        Some(s) => seq![s],
        None => Seq::empty(),
    }
}

/// The parts of the second line: modpack, mods, protocol numbers, and what is said about chat.
pub open spec fn second_parts(s: StatusView) -> Seq<Seq<char>> {
    listed(pack_part(s.modpack)) + listed(mods_part(status::mods_of(s))) + listed(
        via_part(s.version.supported_versions),
    ) + component::one_if(s.enforces_secure_chat == Some(true), "安全聊天"@) + component::one_if(
        s.prevents_chat_reports == Some(true),
        "免举报"@,
    )
}

/// The second line, which may be empty.
pub open spec fn second_line(s: StatusView) -> Seq<SpanView> {
    if second_parts(s).len() == 0 {
        Seq::empty()
    } else {
        plain_line(text::joined(second_parts(s), "  ·  "@))
    }
}

/// The modpack, where it has a name or a version.
fn pack_text(r: &PingResult) -> (t: Option<String>)
    ensures
        text::opt_view(t) == pack_part(r.model().status.modpack),
{
    match &r.status.modpack {
        Some(p) => {
            let n = text::trim(p.name.as_str());
            let v = text::trim(p.version.as_str());
            if !n.as_str().is_empty() && !v.as_str().is_empty() {
                let mut s = text::concat("整合包 ", n.as_str());
                s.append(" ");
                s.append(v.as_str());
                Some(s)
            } else if !n.as_str().is_empty() {
                Some(text::concat("整合包 ", n.as_str()))
            } else if !v.as_str().is_empty() {
                Some(text::concat("整合包 v", v.as_str()))
            } else {
                None
            }
        },
        None => None,
    }
}

/// The mod loader and how many mods there are, where there are any.
pub fn mods_text(mods: &Option<ServerMods>) -> (t: Option<String>)
    ensures
        text::opt_view(t) == mods_part(status::opt_mods(*mods)),
{
    match mods {
        Some(m) => {
            let loader = match m.loader {
                ModLoader::Forge => "Forge",
                ModLoader::Modded => "Modded",
            };
            match m.mod_count {
                Some(n) => {
                    if n == 0 {
                        None
                    } else {
                        let mut s = text::concat(loader, " · ");
                        text::push_decimal(&mut s, n as u128);
                        s.append(" 模组");
                        s.append(
                            if m.truncated {
                                "+"
                            } else {
                                ""
                            },
                        );
                        Some(s)
                    }
                },
                None => Some(loader.to_owned()),
            }
        },
        None => None,
    }
}

/// The least number of a list.
fn min_of(list: &Vec<i32>) -> (r: Option<i32>)
    ensures
        r == least(list@),
{
    let mut best: Option<i32> = None;
    assert(list@.take(0) =~= Seq::empty());
    for i in 0..list.len()
        invariant
            best == least(list@.take(i as int)),
    {
        assert(list@.take(i + 1).drop_last() =~= list@.take(i as int));
        let n: i32 = list[i];
        best =
        match best {
            Some(m) => if m < n {
                Some(m)
            } else {
                Some(n)
            },
            None => Some(n),
        };
    }
    assert(list@.take(list@.len() as int) =~= list@);
    best
}

/// The protocol numbers that the server takes besides, where it says so.
pub fn via_text(list: &Vec<i32>) -> (t: Option<String>)
    ensures
        text::opt_view(t) == via_part(list@),
{
    match (min_of(list), max_of(list)) {
        (Some(min), Some(max)) => {
            let mut range = "proto ".to_owned();
            let a = text::signed_decimal_of(min as i64);
            range.append(a.as_str());
            if min != max {
                let b = text::signed_decimal_of(max as i64);
                range.append("–");
                range.append(b.as_str());
            }
            let mut s = "Via 兼容 ".to_owned();
            text::push_decimal(&mut s, list.len() as u128);
            s.append(" 版 · ");
            s.append(range.as_str());
            Some(s)
        },
        _ => {
            proof {
                lemma_extremes(list@);
            }
            None
        },
    }
}

proof fn lemma_extremes(list: Seq<i32>)
    ensures
        least(list) is Some <==> list.len() > 0,
        protocol::greatest(list) is Some <==> list.len() > 0,
    decreases list.len(),
{
    if list.len() > 0 {
        lemma_extremes(list.drop_last());
    }
}

/// The second line, which may be empty.
pub fn info_line2(r: &PingResult) -> (v: Vec<Span>)
    ensures
        component::span_views(v@) == second_line(r.model().status),
{
    let mut parts: Vec<String> = Vec::new();
    if let Some(t) = pack_text(r) {
        parts.push(t);
    }
    let mods = r.status.mods();
    if let Some(t) = mods_text(&mods) {
        parts.push(t);
    }
    if let Some(t) = via_text(&r.status.version.supported_versions) {
        parts.push(t);
    }
    if let Some(true) = r.status.enforces_secure_chat {
        parts.push("安全聊天".to_owned());
    }
    if let Some(true) = r.status.prevents_chat_reports {
        parts.push("免举报".to_owned());
    }
    assert(text::views(parts@) =~= second_parts(r.model().status));
    if parts.len() == 0 {
        let v: Vec<Span> = Vec::new();
        assert(component::span_views(v@) =~= Seq::empty());
        v
    } else {
        let s = text::join(&parts, "  ·  ");
        line_spans(s.as_str())
    }
}

// ---- laws ----

/// A text and what separates it from the next, where there is a text.
pub open spec fn led(on: bool, t: Seq<char>) -> Seq<char> {
    if on {
        t + "  ·  "@
    } else {
        Seq::empty()
    }
}

proof fn lemma_joined_push(parts: Seq<Seq<char>>, t: Seq<char>, sep: Seq<char>)
    ensures
        parts.len() == 0 ==> text::joined(parts.push(t), sep) == t,
        parts.len() > 0 ==> text::joined(parts.push(t), sep) == text::joined(parts, sep) + sep + t,
{
    assert(parts.push(t).drop_last() =~= parts);
}

/// The first line says, in this order: the latency in milliseconds, where it was measured; the name
/// of the version without codes, where there is one; always the protocol number; and that the server
/// is an old one, where it is.
pub proof fn first_line_says_what_is_known(r: ResultView)
    ensures
        ({
            let name = clean_name(r.status.version.name);
            let t = led(r.latency is Some, text::decimal(r.latency->0 as nat) + "ms"@) + led(
                name.len() > 0,
                name,
            ) + ("协议 "@ + text::signed_decimal(r.status.version.protocol as int)) + (
            if r.is_legacy {
                "  ·  "@ + "旧版 ping"@
            } else {
                Seq::empty()
            });
            first_line(r) == seq![SpanView { text: t, style: component::plain_style() }]
        }),
{
    let sep = "  ·  "@;
    let name = clean_name(r.status.version.name);
    let a = text::decimal(r.latency->0 as nat) + "ms"@;
    let n = "协议 "@ + text::signed_decimal(r.status.version.protocol as int);
    let old_one = "旧版 ping"@;
    let one = component::one_if(r.latency is Some, a);
    let two = one + component::one_if(name.len() > 0, name);
    let three = two + seq![n];
    let four = three + component::one_if(r.is_legacy, old_one);
    assert(first_parts(r) =~= four);
    let head = led(r.latency is Some, a) + led(name.len() > 0, name);
    let none = Seq::<Seq<char>>::empty();
    lemma_joined_push(none, a, sep);
    lemma_joined_push(none, name, sep);
    lemma_joined_push(one, name, sep);
    lemma_joined_push(two, n, sep);
    assert(three =~= two.push(n));
    if r.latency is Some {
        assert(one =~= none.push(a));
    } else {
        assert(one =~= none);
    }
    if name.len() > 0 {
        assert(two =~= one.push(name));
    } else {
        assert(two =~= one);
    }
    if two.len() > 0 {
        assert(text::joined(two, sep) + sep =~= head);
        assert(text::joined(three, sep) =~= head + n);
    } else {
        assert(head =~= Seq::empty());
        assert(head + n =~= n);
    }
    if r.is_legacy {
        assert(four.drop_last() =~= three);
        assert(four.len() > 1);
        assert(text::joined(four, sep) == text::joined(three, sep) + sep + old_one);
        assert(text::joined(four, sep) =~= head + n + (sep + old_one));
    } else {
        assert(four =~= three);
        assert(head + n + Seq::<char>::empty() =~= head + n);
    }
}

/// The name of the version is shown without codes and without white space at its ends.
pub proof fn version_names_are_shown(name: Seq<char>)
    requires
        name.len() > 0,
        !name.contains('§'),
        !text::is_white(name.first()),
        !text::is_white(name.last()),
    ensures
        clean_name(Some(name)) == name,
        clean_name(None).len() == 0,
{
    let c = component::text_view(name);
    component::plain_text_is_clean(c);
    component::own_style_wins(c, component::plain_style());
    let f = component::flat(c, component::plain_style());
    assert(f.drop_last() =~= Seq::empty());
    assert(component::texts(f.drop_last()) =~= Seq::empty());
    assert(component::texts(f) =~= name);
    text::trimming_keeps_tight_text(name);
}

/// The modpack comes first on the second line, what is said about chat last; a server that says
/// nothing of this has no second line.
pub proof fn second_line_says_what_is_known(s: StatusView)
    ensures
        pack_part(s.modpack) matches Some(t) ==> second_parts(s) == seq![t] + second_parts(
            StatusView { modpack: None, ..s },
        ),
        s.enforces_secure_chat == Some(true) && s.prevents_chat_reports == Some(true)
            ==> second_parts(s) == second_parts(
            StatusView { enforces_secure_chat: None, prevents_chat_reports: None, ..s },
        ) + seq!["安全聊天"@, "免举报"@],
        s.enforces_secure_chat == Some(true) && s.prevents_chat_reports != Some(true)
            ==> second_parts(s).len() > 0 && second_parts(s).last() == "安全聊天"@,
        s.prevents_chat_reports == Some(true) ==> second_parts(s).len() > 0
            && second_parts(s).last() == "免举报"@,
        pack_part(s.modpack) is None && mods_part(status::mods_of(s)) is None
            && s.version.supported_versions.len() == 0 && s.enforces_secure_chat != Some(true)
            && s.prevents_chat_reports != Some(true) ==> second_line(s).len() == 0,
        pack_part(s.modpack) is None && s.version.supported_versions.len() == 0
            && s.enforces_secure_chat != Some(true) && s.prevents_chat_reports != Some(true) ==> (
        mods_part(status::mods_of(s)) matches Some(t) ==> second_line(s) == seq![
            SpanView { text: t, style: component::plain_style() },
        ]),
{
    let bare = StatusView { modpack: None, ..s };
    let quiet = StatusView { enforces_secure_chat: None, prevents_chat_reports: None, ..s };
    assert(status::mods_of(bare) == status::mods_of(s));
    assert(status::mods_of(quiet) == status::mods_of(s));
    if let Some(t) = pack_part(s.modpack) {
        assert(second_parts(s) =~= seq![t] + second_parts(bare));
    }
    if s.enforces_secure_chat == Some(true) && s.prevents_chat_reports == Some(true) {
        assert(second_parts(s) =~= second_parts(quiet) + seq!["安全聊天"@, "免举报"@]);
    }
    if pack_part(s.modpack) is None && s.version.supported_versions.len() == 0
        && s.enforces_secure_chat != Some(true) && s.prevents_chat_reports != Some(true) {
        if let Some(t) = mods_part(status::mods_of(s)) {
            assert(second_parts(s) =~= seq![t]);
            assert(second_line(s) =~= plain_line(t));
        }
    }
}

/// A list of mods is shown with its loader and its number, and a plus where some were left out; an
/// empty one is not shown.
pub proof fn mods_are_counted(m: ModsView)
    ensures
        m.mod_count == Some(0nat) ==> mods_part(Some(m)) is None,
        m.mod_count is None ==> mods_part(Some(m)) == Some(
            if m.loader is Forge {
                "Forge"@
            } else {
                "Modded"@
            },
        ),
        (m.mod_count matches Some(n) ==> n > 0 && m.loader is Forge && m.truncated
            ==> mods_part(Some(m)) == Some("Forge · "@ + text::decimal(n) + " 模组+"@)),
        (m.mod_count matches Some(n) ==> n > 0 && m.loader is Forge && !m.truncated
            ==> mods_part(Some(m)) == Some("Forge · "@ + text::decimal(n) + " 模组"@)),
        mods_part(None) is None,
{
    reveal_strlit("Forge");
    reveal_strlit("Forge · ");
    reveal_strlit(" · ");
    reveal_strlit(" 模组");
    reveal_strlit(" 模组+");
    reveal_strlit("+");
    reveal_strlit("");
    if let Some(n) = m.mod_count {
        if n > 0 && m.loader is Forge {
            let d = text::decimal(n);
            assert("Forge"@ + " · "@ =~= "Forge · "@);
            assert("Forge"@ + " · "@ + d + " 模组"@ + "+"@ =~= "Forge · "@ + d + " 模组+"@);
            assert("Forge"@ + " · "@ + d + " 模组"@ + ""@ =~= "Forge · "@ + d + " 模组"@);
        }
    }
}

/// The range of the protocol numbers goes from the least to the greatest of them.
pub proof fn range_goes_from_least_to_greatest(list: Seq<i32>)
    requires
        list.len() > 0,
    ensures
        least(list) is Some,
        list.contains(least(list)->0),
        forall|i: int| 0 <= i < list.len() ==> least(list)->0 <= #[trigger] list[i],
        via_part(list) is Some,
        least(list) != protocol::greatest(list) ==> via_part(list) == Some(
            "Via 兼容 "@ + text::decimal(list.len()) + " 版 · "@ + ("proto "@ + text::signed_decimal(
                least(list)->0 as int,
            ) + "–"@ + text::signed_decimal(protocol::greatest(list)->0 as int)),
        ),
    decreases list.len(),
{
    let before = list.drop_last();
    if before.len() > 0 {
        range_goes_from_least_to_greatest(before);
        let m = least(before)->0;
        let k = choose|k: int| 0 <= k < before.len() && before[k] == m;
        assert(list[k] == m);
        assert forall|i: int| 0 <= i < list.len() implies least(list)->0 <= #[trigger] list[i] by {
            if i < before.len() {
                assert(m <= before[i]);
            }
        }
    }
    assert(list[list.len() - 1] == list.last());
    protocol::greatest_is_greatest(list, 0);
}

/// The title of a server is the one that is given, else its address; the count of its players says
/// how many there are and how many there may be.
pub proof fn titles_and_counts_say_what_is_known(r: ResultView, title: Seq<char>)
    ensures
        title_of(r, Some(title)) == title,
        title_of(r, None) == r.host + seq![':'] + text::decimal(r.port as nat),
        r.status.players is None ==> player_count(r.status).len() == 0,
        r.status.players matches Some(p) ==> player_count(r.status) == seq![
            SpanView {
                text: text::signed_decimal(p.online as int) + seq!['/'] + text::signed_decimal(
                    p.max as int,
                ),
                style: component::plain_style(),
            },
        ],
{
    reveal_strlit(":");
    reveal_strlit("/");
    assert(":"@ =~= seq![':']);
    assert("/"@ =~= seq!['/']);
}

} // verus!
