//! The decisions of the HTTP front end: what a request asks for, and what its answer says.

use vstd::prelude::*;
use crate::minecraft::bedrock;
use crate::minecraft::bedrock::{to_ping_result, BedrockResult};
use crate::minecraft::component;
use crate::minecraft::protocol;
use crate::minecraft::protocol::{PingError, PingResult, ResultView};
use crate::minecraft::render::canvas;
use crate::minecraft::render::canvas::{stack_vertical, Canvas, Picture, Rgba};
use crate::minecraft::render::card;
use crate::minecraft::render::card::{
    card_can_be_drawn, render_server_card, render_server_card_png, MAX_CARD_WIDTH,
};
use crate::minecraft::render::gui::{Assets, AssetsView};
use crate::minecraft::render::motd;
use crate::minecraft::render::motd::encode_png;
use crate::minecraft::render::options::{
    CardOptions, OldColorPolicy, ScreenOptions, TargetVersion,
};
use crate::minecraft::render::screen;
use crate::minecraft::render::screen::{
    render_select_server_png, render_server_list_png, EntryView, ListEntry,
};
use crate::minecraft::status;
use crate::minecraft::text;

verus! {

// ---- editions ----

/// The edition that a request asks for.
#[derive(Debug, Clone, Copy, PartialEq, Eq, Structural)]
pub enum Edition {
    /// Java first, then Bedrock.
    Auto,
    Java,
    Bedrock,
}

/// The edition that a text names, in small or capital letters.
pub open spec fn edition_of(s: Option<Seq<char>>) -> Edition {
    match s {
        Some(t) => {
            let l = t.map_values(|c: char| text::lower(c));
            if l == "je"@ || l == "java"@ {
                Edition::Java
            } else if l == "be"@ || l == "bedrock"@ {
                Edition::Bedrock
            } else {
                Edition::Auto
            }
        },
        None => Edition::Auto,
    }
}

/// Reads the edition of a request.
pub fn parse_edition(s: Option<&str>) -> (r: Edition)
    ensures
        r == edition_of(
            match s {
                Some(t) => Some(t@),
                None => None,
            },
        ),
{
    match s {
        Some(t) => {
            let l = text::lowercase(t);
            if text::same(l.as_str(), "je") || text::same(l.as_str(), "java") {
                Edition::Java
            } else if text::same(l.as_str(), "be") || text::same(l.as_str(), "bedrock") {
                Edition::Bedrock
            } else {
                Edition::Auto
            }
        },
        None => Edition::Auto,
    }
}

/// What to do next to get the status of a server.
pub enum Fetch {
    PingJava,
    /// Ping as Bedrock; the complaint of the Java ping before it, if there was one.
    PingBedrock(Option<String>),
    Done(Result<(PingResult, Edition), String>),
}

/// What to do first.
pub fn first_fetch(ed: Edition) -> (r: Fetch)
    ensures
        r == (match ed {
            Edition::Bedrock => Fetch::PingBedrock(None),
            _ => Fetch::PingJava,
        }),
{
    match ed {
        Edition::Bedrock => Fetch::PingBedrock(None),
        _ => Fetch::PingJava,
    }
}

/// What to do after the Java ping: where that failed, any edition will do for `Auto`.
pub fn after_java(ed: Edition, outcome: Result<PingResult, PingError>) -> (r: Fetch)
    ensures
        match outcome {
            Ok(x) => r == Fetch::Done(Ok((x, Edition::Java))),
            Err(e) => if ed is Auto {
                &&& r matches Fetch::PingBedrock(Some(m))
                &&& r->PingBedrock_0->0@ == e@.text()
            } else {
                &&& r matches Fetch::Done(Err(m))
                &&& r->Done_0->Err_0@ == e@.text()
            },
        },
{
    match outcome {
        Ok(x) => Fetch::Done(Ok((x, Edition::Java))),
        Err(e) => {
            let m = e.message();
            match ed {
                Edition::Auto => Fetch::PingBedrock(Some(m)),
                _ => Fetch::Done(Err(m)),
            }
        },
    }
}

/// What is said where both pings failed, or only the Bedrock ping was tried.
pub open spec fn complaint(java: Option<Seq<char>>, bedrock: Seq<char>) -> Seq<char> {
    match java {
        Some(je) => "JE: "@ + je + " | BE: "@ + bedrock,
        None => bedrock,
    }
}

/// The outcome after the Bedrock ping.
pub fn after_bedrock(java: Option<String>, outcome: Result<BedrockResult, PingError>) -> (r: Result<
    (PingResult, Edition),
    String,
>)
    ensures
        match outcome {
            Ok(b) => {
                &&& r matches Ok((x, ed))
                &&& r->Ok_0.0.model() == bedrock::common_form(b.status.model(), b.address)
                &&& r->Ok_0.0.latency == Some(b.status.latency)
                &&& r->Ok_0.1 == Edition::Bedrock
            },
            Err(e) => {
                &&& r matches Err(m)
                &&& r->Err_0@ == complaint(text::opt_view(java), e@.text())
            },
        },
{
    match outcome {
        Ok(b) => Ok((to_ping_result(&b), Edition::Bedrock)),
        Err(e) => {
            let be = e.message();
            match java {
                Some(je) => {
                    let mut m = text::concat("JE: ", je.as_str());
                    m.append(" | BE: ");
                    m.append(be.as_str());
                    Err(m)
                },
                None => Err(be),
            }
        },
    }
}

// ---- one server ----

/// The answer to a request for the status of a server.
#[derive(Debug, Clone)]
pub struct PingResponse {
    pub host: String,
    pub port: u16,
    pub via_srv: bool,
    pub edition: String,
    pub online: i64,
    pub max: i64,
    pub version: Option<String>,
    pub protocol: i32,
    pub latency_ms: Option<u128>,
    pub motd: String,
    pub favicon: Option<String>,
    pub players: Vec<String>,
}

/// The names of the players of a sample.
pub open spec fn names_of(sample: Seq<(Seq<char>, Seq<char>)>) -> Seq<Seq<char>> {
    Seq::new(sample.len(), |i: int| sample[i].0)
}

/// The name of an edition that answered.
pub open spec fn edition_name(ed: Edition) -> Seq<char> {
    if ed is Bedrock {
        "bedrock"@
    } else {
        "java"@
    }
}

/// The answer to a request for the status of a server.
pub fn to_json(ed: Edition, r: &PingResult) -> (p: PingResponse)
    ensures
        p.host@ == r.model().host,
        p.port == r.model().port,
        p.via_srv == r.model().via_srv,
        p.edition@ == edition_name(ed),
        match r.model().status.players {
            Some(x) => p.online == x.online && p.max == x.max && text::views(p.players@)
                == names_of(x.sample),
            None => p.online == 0 && p.max == 0 && p.players@.len() == 0,
        },
        text::opt_view(p.version) == r.model().status.version.name,
        p.protocol == r.model().status.version.protocol,
        p.latency_ms == r.model().latency,
        p.motd@ == component::plain_of(r.model().status.description),
        text::opt_view(p.favicon) == r.model().status.favicon,
{
    let mut players: Vec<String> = Vec::new();
    let mut online: i64 = 0;
    let mut max: i64 = 0;
    if let Some(p) = &r.status.players {
        online = p.online;
        max = p.max;
        let ghost goal = names_of(status::player_views(p.sample@));
        for i in 0..p.sample.len()
            invariant
                goal == names_of(status::player_views(p.sample@)),
                text::views(players@) =~= goal.take(i as int),
        {
            let ghost before = text::views(players@);
            players.push(p.sample[i].name.clone());
            assert(text::views(players@) =~= before.push(goal[i as int]));
        }
        assert(text::views(players@) =~= goal);
    }
    let edition = match ed {
        Edition::Bedrock => "bedrock",
        _ => "java",
    };
    PingResponse {
        host: r.address.host.clone(),
        port: r.address.port,
        via_srv: r.address.via_srv,
        edition: edition.to_owned(),
        online,
        max,
        version: r.status.version.name.clone(),
        protocol: r.status.version.protocol,
        latency_ms: r.latency,
        motd: r.status.description.plain(),
        favicon: r.status.favicon.clone(),
        players,
    }
}

/// Whether a request asks for cards; anything else is the screen.
pub fn wants_card(style: Option<&str>) -> (r: bool)
    ensures
        r == (match style {
            Some(s) => s@ == "card"@,
            None => false,
        }),
{
    match style {
        Some(s) => text::same(s, "card"),
        None => false,
    }
}

// ---- several servers ----

/// The texts without white space at their ends.
pub open spec fn trimmed_all(list: Seq<Seq<char>>) -> Seq<Seq<char>> {
    list.map_values(|t: Seq<char>| text::trimmed(t))
}

/// The texts that are not empty.
pub open spec fn non_empty(list: Seq<Seq<char>>) -> Seq<Seq<char>> {
    list.filter(|t: Seq<char>| t.len() > 0)
}

/// The hosts of a list with commas.
pub open spec fn hosts_of(s: Seq<char>) -> Seq<Seq<char>> {
    non_empty(trimmed_all(text::pieces(s, ',')))
}

/// The hosts of a list with commas.
pub fn split_hosts(hosts: &str) -> (r: Vec<String>)
    ensures
        text::views(r@) == hosts_of(hosts@),
{
    let parts = text::split(hosts, ',');
    let ghost all = trimmed_all(text::views(parts@));
    let ghost keep = |t: Seq<char>| t.len() > 0;
    let mut out: Vec<String> = Vec::new();
    proof {
        reveal(Seq::filter);
        assert(all.take(0).filter(keep) =~= Seq::empty());
        assert(text::views(out@) =~= Seq::empty());
    }
    for i in 0..parts.len()
        invariant
            all == trimmed_all(text::views(parts@)),
            keep == (|t: Seq<char>| t.len() > 0),
            text::views(out@) =~= all.take(i as int).filter(keep),
    {
        reveal(Seq::filter);
        assert(all.take(i + 1).drop_last() =~= all.take(i as int));
        let t = text::trim(parts[i].as_str());
        assert(all[i as int] == t@);
        if !t.as_str().is_empty() {
            let ghost before = text::views(out@);
            out.push(t);
            assert(text::views(out@) =~= before.push(t@));
        }
    }
    assert(all.take(all.len() as int) =~= all);
    out
}

/// The name of the host `i`: the one that stands at its place in the list of names, unless that is
/// empty or missing, else the host.
pub open spec fn name_for(hosts: Seq<Seq<char>>, names: Option<Seq<char>>, i: int) -> Seq<char> {
    match names {
        Some(n) => {
            let list = text::pieces(n, ',');
            if i < list.len() && text::trimmed(list[i]).len() > 0 {
                text::trimmed(list[i])
            } else {
                hosts[i]
            }
        },
        None => hosts[i],
    }
}

/// The names of the hosts.
pub fn entry_names(hosts: &Vec<String>, names: Option<&str>) -> (r: Vec<String>)
    ensures
        r@.len() == hosts@.len(),
        forall|i: int|
            0 <= i < r@.len() ==> (#[trigger] r@[i])@ == name_for(
                text::views(hosts@),
                match names {
                    Some(n) => Some(n@),
                    None => None,
                },
                i,
            ),
{
    let given: Vec<String> = match names {
        Some(n) => text::split(n, ','),
        None => Vec::new(),
    };
    assert(text::views(given@).len() == given@.len());
    let mut out: Vec<String> = Vec::new();
    let ghost list = text::views(hosts@);
    let ghost wanted = match names {
        Some(n) => Some(n@),
        None => None,
    };
    for i in 0..hosts.len()
        invariant
            list == text::views(hosts@),
            wanted matches Some(n) ==> text::views(given@) == text::pieces(n, ','),
            wanted is None ==> given@.len() == 0,
            text::views(given@).len() == given@.len(),
            out@.len() == i,
            forall|k: int| 0 <= k < i ==> (#[trigger] out@[k])@ == name_for(list, wanted, k),
    {
        let mut name = hosts[i].clone();
        if i < given.len() {
            assert(text::views(given@)[i as int] == given@[i as int]@);
            let t = text::trim(given[i].as_str());
            if !t.as_str().is_empty() {
                name = t;
            }
        }
        out.push(name);
    }
    out
}

/// How many servers could not be reached.
pub open spec fn down_count(entries: Seq<EntryView>) -> nat
    decreases entries.len(),
{
    if entries.len() == 0 {
        0
    } else {
        down_count(entries.drop_last()) + (if entries.last().result is None {
            1nat
        } else {
            0
        })
    }
}

/// How many servers could not be reached.
pub fn count_unreachable(entries: &Vec<ListEntry>) -> (r: usize)
    ensures
        r == down_count(screen::entry_views(entries@)),
        r <= entries@.len(),
{
    let ghost all = screen::entry_views(entries@);
    let mut n: usize = 0;
    assert(all.take(0) =~= Seq::empty());
    for i in 0..entries.len()
        invariant
            all == screen::entry_views(entries@),
            n == down_count(all.take(i as int)),
            n <= i,
    {
        assert(all.take(i + 1).drop_last() =~= all.take(i as int));
        assert(all.take(i + 1).last() == entries@[i as int].model());
        if entries[i].result.is_none() {
            n += 1;
        }
    }
    assert(all.take(all.len() as int) =~= all);
    n
}

/// The enlargement of the pictures in replies.
pub const REPLY_SCALE: u32 = 4;

/// The space between the cards of a list.
pub const CARD_GAP: u32 = 16;

/// The height of a card of a list and the space below it.
pub const CARD_STEP: u32 = 240;

/// The ground of the cards of a list.
pub open spec fn card_ground() -> Rgba {
    Rgba { r: 20, g: 20, b: 24, a: 255 }
}

/// The card of an entry, with its name for a title.
pub open spec fn entry_card(name: Seq<char>, r: ResultView, assets: AssetsView) -> Picture {
    card::card_picture(
        r,
        assets,
        REPLY_SCALE,
        TargetVersion::Latest,
        OldColorPolicy::Downsample,
        card_ground(),
        Some(name),
        true,
    )
}

/// The cards of the servers that could be reached.
pub open spec fn entry_cards(entries: Seq<EntryView>, assets: AssetsView) -> Seq<Picture>
    decreases entries.len(),
{
    if entries.len() == 0 {
        Seq::empty()
    } else {
        let before = entry_cards(entries.drop_last(), assets);
        match entries.last().result {
            Some(r) => before.push(entry_card(entries.last().name, r, assets)),
            None => before,
        }
    }
}

/// The cards of a list can be drawn.
pub open spec fn cards_fit(entries: Seq<EntryView>) -> bool {
    &&& forall|i: int|
        0 <= i < entries.len() ==> ((#[trigger] entries[i]).result matches Some(r)
            ==> card::card_fits(r, REPLY_SCALE as int, Some(entries[i].name)))
    &&& canvas::fits(MAX_CARD_WIDTH * REPLY_SCALE, at_most_height(entries.len() as int))
}

/// The height that `n` cards with gaps between them take at most.
pub open spec fn at_most_height(n: int) -> int {
    canvas::at_least(n * CARD_STEP, 1)
}

/// Whether the cards of a list can be drawn.
pub fn cards_can_be_drawn(entries: &Vec<ListEntry>) -> (r: bool)
    ensures
        r == cards_fit(screen::entry_views(entries@)),
{
    let ghost all = screen::entry_views(entries@);
    if entries.len() > 0x1000_0000 {
        return false;
    }
    let h: u64 = if entries.len() > 0 {
        entries.len() as u64 * CARD_STEP as u64
    } else {
        1
    };
    if !canvas::is_holdable(MAX_CARD_WIDTH as u64 * REPLY_SCALE as u64, h) {
        return false;
    }
    for i in 0..entries.len()
        invariant
            all == screen::entry_views(entries@),
            forall|k: int|
                0 <= k < i ==> ((#[trigger] all[k]).result matches Some(r) ==> card::card_fits(
                    r,
                    REPLY_SCALE as int,
                    Some(all[k].name),
                )),
    {
        assert(all[i as int] == entries@[i as int].model());
        if let Some(r) = &entries[i].result {
            let title = Some(entries[i].name.clone());
            if !card_can_be_drawn(r, REPLY_SCALE, &title) {
                return false;
            }
        }
    }
    true
}

proof fn lemma_stack(list: Seq<Picture>)
    requires
        forall|i: int|
            0 <= i < list.len() ==> 1 <= (#[trigger] list[i]).w <= MAX_CARD_WIDTH * REPLY_SCALE
                && list[i].h == card::card_height() * REPLY_SCALE,
    ensures
        1 <= canvas::widest(list) <= MAX_CARD_WIDTH * REPLY_SCALE,
        canvas::next_top(list, CARD_GAP as int) == list.len() * CARD_STEP,
    decreases list.len(),
{
    if list.len() > 0 {
        let before = list.drop_last();
        assert forall|i: int| 0 <= i < before.len() implies 1 <= (#[trigger] before[i]).w
            <= MAX_CARD_WIDTH * REPLY_SCALE && before[i].h == card::card_height()
            * REPLY_SCALE by {
            assert(before[i] == list[i]);
        }
        lemma_stack(before);
        assert(list[list.len() - 1].w >= 1);
    }
}

/// Draws the cards of the servers that could be reached below each other; none where there is no
/// such server.
pub fn render_card_list(assets: &Assets, entries: &Vec<ListEntry>) -> (r: Option<Canvas>)
    requires
        assets.wf(),
        cards_fit(screen::entry_views(entries@)),
    ensures
        r is None <==> entry_cards(screen::entry_views(entries@), assets.model()).len() == 0,
        r matches Some(c) ==> c.wf() && c@ == canvas::stacked(
            entry_cards(screen::entry_views(entries@), assets.model()),
            CARD_GAP as int,
            card_ground(),
        ),
{
    let ghost all = screen::entry_views(entries@);
    let ghost pics = assets.model();
    let mut cards: Vec<Canvas> = Vec::new();
    let ground = Rgba { r: 20, g: 20, b: 24, a: 255 };
    assert(all.take(0) =~= Seq::empty());
    assert(canvas::pictures(cards@) =~= Seq::empty());
    for i in 0..entries.len()
        invariant
            all == screen::entry_views(entries@),
            pics == assets.model(),
            assets.wf(),
            cards_fit(all),
            ground == card_ground(),
            cards@.len() <= i,
            canvas::pictures(cards@) =~= entry_cards(all.take(i as int), pics),
            forall|k: int|
                0 <= k < cards@.len() ==> {
                    &&& (#[trigger] cards@[k]).wf()
                    &&& 1 <= cards@[k]@.w <= MAX_CARD_WIDTH * REPLY_SCALE
                    &&& cards@[k]@.h == card::card_height() * REPLY_SCALE
                },
    {
        assert(all.take(i + 1).drop_last() =~= all.take(i as int));
        assert(all.take(i + 1).last() == entries@[i as int].model());
        assert(all[i as int] == entries@[i as int].model());
        if let Some(r) = &entries[i].result {
            let opts = CardOptions {
                scale: REPLY_SCALE,
                target: TargetVersion::Latest,
                old_color_policy: OldColorPolicy::Downsample,
                background: ground,
                title: Some(entries[i].name.clone()),
                checker: true,
            };
            let c = render_server_card(assets, r, &opts);
            let ghost before = canvas::pictures(cards@);
            cards.push(c);
            assert(canvas::pictures(cards@) =~= before.push(c@));
        }
    }
    assert(all.take(all.len() as int) =~= all);
    let ghost list = canvas::pictures(cards@);
    assert(list.len() == cards@.len());
    if cards.len() == 0 {
        return None;
    }
    proof {
        assert forall|i: int| 0 <= i < list.len() implies 1 <= (#[trigger] list[i]).w
            <= MAX_CARD_WIDTH * REPLY_SCALE && list[i].h == card::card_height()
            * REPLY_SCALE by {
            assert(cards@[i].wf());
        }
        lemma_stack(list);
        canvas::lemma_smaller_fits(
            MAX_CARD_WIDTH * REPLY_SCALE,
            at_most_height(all.len() as int),
            canvas::widest(list),
            canvas::stack_height(list, CARD_GAP as int),
        );
    }
    Some(stack_vertical(cards.as_slice(), CARD_GAP, ground))
}

// ---- replies ----

/// What a request is answered: a status code, a picture or a text, and how many servers could not be
/// reached, where that is said.
pub struct Reply {
    pub status: u16,
    pub png: Option<Vec<u8>>,
    pub text: String,
    pub unreachable: Option<usize>,
}

/// What a [`Reply`] holds.
#[verifier::ext_equal]
pub struct ReplyView {
    pub status: u16,
    pub png: Option<Seq<u8>>,
    pub text: Seq<char>,
    pub unreachable: Option<nat>,
}

impl Reply {
    /// What the reply holds.
    pub open spec fn model(self) -> ReplyView {
        ReplyView {
            status: self.status,
            png: status::opt_bytes(self.png),
            text: self.text@,
            unreachable: status::opt_count(self.unreachable),
        }
    }
}

/// A reply that is a text.
pub open spec fn said(code: u16, t: Seq<char>) -> ReplyView {
    ReplyView { status: code, png: None, text: t, unreachable: None }
}

/// A reply with a picture; an encoder's complaint is a fault of this side.
pub open spec fn shown(png: Result<Seq<u8>, Seq<char>>, unreachable: Option<nat>) -> ReplyView {
    match png {
        Ok(b) => ReplyView { status: 200, png: Some(b), text: Seq::empty(), unreachable },
        Err(e) => said(500, e),
    }
}

/// A reply that is a text.
fn say(code: u16, t: String) -> (r: Reply)
    ensures
        r.model() == said(code, t@),
{
    Reply { status: code, png: None, text: t, unreachable: None }
}

/// A reply with a picture.
pub fn show(png: Result<Vec<u8>, String>, unreachable: Option<usize>) -> (r: Reply)
    ensures
        r.model() == shown(motd::png_result(png), status::opt_count(unreachable)),
{
    match png {
        Ok(b) => Reply { status: 200, png: Some(b), text: String::new(), unreachable },
        Err(e) => say(500, e),
    }
}

/// The reply where no server could be asked.
pub fn refuse(complaint: String) -> (r: Reply)
    ensures
        r.model() == said(502, complaint@),
{
    say(502, complaint)
}

/// The hosts to ask with the names to show, or the reply where there is no host.
pub fn plan_list(hosts: &str, names: Option<&str>) -> (r: Result<Vec<(String, String)>, Reply>)
    ensures
        match r {
            Ok(list) => {
                &&& hosts_of(hosts@).len() > 0
                &&& list@.len() == hosts_of(hosts@).len()
                &&& forall|i: int|
                    0 <= i < list@.len() ==> (#[trigger] list@[i]).0@ == hosts_of(hosts@)[i]
                        && list@[i].1@ == name_for(
                        hosts_of(hosts@),
                        match names {
                            Some(n) => Some(n@),
                            None => None,
                        },
                        i,
                    )
            },
            Err(e) => hosts_of(hosts@).len() == 0 && e.model() == said(400, "no hosts"@),
        },
{
    let found = split_hosts(hosts);
    let ghost all = text::views(found@);
    assert(all.len() == found@.len());
    if found.len() == 0 {
        return Err(say(400, "no hosts".to_owned()));
    }
    let shown_as = entry_names(&found, names);
    let mut out: Vec<(String, String)> = Vec::new();
    let ghost wanted = match names {
        Some(n) => Some(n@),
        None => None,
    };
    for i in 0..found.len()
        invariant
            all == text::views(found@),
            shown_as@.len() == found@.len(),
            forall|k: int|
                0 <= k < shown_as@.len() ==> (#[trigger] shown_as@[k])@ == name_for(all, wanted, k),
            out@.len() == i,
            forall|k: int|
                0 <= k < i ==> (#[trigger] out@[k]).0@ == all[k] && out@[k].1@ == name_for(
                    all,
                    wanted,
                    k,
                ),
    {
        out.push((found[i].clone(), shown_as[i].clone()));
    }
    Ok(out)
}

/// The style of a request asks for cards.
pub open spec fn is_card(style: Option<Seq<char>>) -> bool {
    style == Some("card"@)
}

/// The optional characters.
pub open spec fn opt_chars(s: Option<&str>) -> Option<Seq<char>> {
    match s {
        Some(t) => Some(t@),
        None => None,
    }
}

/// A list of servers can be shown.
pub open spec fn list_ready(entries: Seq<EntryView>, style: Option<Seq<char>>) -> bool {
    if is_card(style) {
        cards_fit(entries)
    } else {
        screen::list_fits(entries, REPLY_SCALE)
    }
}

/// Whether a list of servers can be shown.
pub fn list_is_ready(entries: &Vec<ListEntry>, style: Option<&str>) -> (r: bool)
    ensures
        r == list_ready(screen::entry_views(entries@), opt_chars(style)),
{
    if wants_card(style) {
        cards_can_be_drawn(entries)
    } else {
        screen::list_can_be_drawn(entries, REPLY_SCALE)
    }
}

/// How many servers could not be reached, where there are any.
pub open spec fn down_note(entries: Seq<EntryView>) -> Option<nat> {
    if down_count(entries) > 0 {
        Some(down_count(entries))
    } else {
        None
    }
}

/// The reply to a request for several servers: the screen with all of them, or the cards of those
/// that could be reached.
pub open spec fn list_answer(
    entries: Seq<EntryView>,
    assets: AssetsView,
    style: Option<Seq<char>>,
) -> ReplyView {
    if is_card(style) {
        if entry_cards(entries, assets).len() == 0 {
            said(502, "all hosts unreachable"@)
        } else {
            shown(
                motd::png_file(
                    canvas::stacked(entry_cards(entries, assets), CARD_GAP as int, card_ground()),
                ),
                down_note(entries),
            )
        }
    } else {
        shown(
            motd::png_file(
                screen::list_picture(
                    entries,
                    assets,
                    REPLY_SCALE,
                    TargetVersion::Latest,
                    OldColorPolicy::Downsample,
                ),
            ),
            None,
        )
    }
}

/// The reply to a request for several servers.
pub fn list_reply(assets: &Assets, entries: &Vec<ListEntry>, style: Option<&str>) -> (r: Reply)
    requires
        assets.wf(),
        list_ready(screen::entry_views(entries@), opt_chars(style)),
    ensures
        r.model() == list_answer(
            screen::entry_views(entries@),
            assets.model(),
            opt_chars(style),
        ),
{
    if wants_card(style) {
        let down: usize = count_unreachable(entries);
        match render_card_list(assets, entries) {
            Some(stack) => show(
                encode_png(&stack),
                if down > 0 {
                    Some(down)
                } else {
                    None
                },
            ),
            None => say(502, "all hosts unreachable".to_owned()),
        }
    } else {
        let opts = ScreenOptions {
            scale: REPLY_SCALE,
            target: TargetVersion::Latest,
            old_color_policy: OldColorPolicy::Downsample,
            title: None,
        };
        show(render_server_list_png(assets, entries, &opts), None)
    }
}

/// A server can be shown.
pub open spec fn image_ready(
    r: ResultView,
    style: Option<Seq<char>>,
    name: Option<Seq<char>>,
) -> bool {
    if is_card(style) {
        card::card_fits(r, REPLY_SCALE as int, name)
    } else {
        screen::select_fits(r, REPLY_SCALE, name)
    }
}

/// Whether a server can be shown.
pub fn image_is_ready(result: &PingResult, style: Option<&str>, name: &Option<String>) -> (r: bool)
    ensures
        r == image_ready(result.model(), opt_chars(style), text::opt_view(*name)),
{
    if wants_card(style) {
        card_can_be_drawn(result, REPLY_SCALE, name)
    } else {
        screen::select_can_be_drawn(result, REPLY_SCALE, name)
    }
}

/// The reply to a request for the picture of a server: its card, or the screen with it.
pub open spec fn image_answer(
    r: ResultView,
    assets: AssetsView,
    style: Option<Seq<char>>,
    name: Option<Seq<char>>,
) -> ReplyView {
    shown(
        motd::png_file(
            if is_card(style) {
                card::card_picture(
                    r,
                    assets,
                    REPLY_SCALE,
                    TargetVersion::Latest,
                    OldColorPolicy::Downsample,
                    card_ground(),
                    name,
                    true,
                )
            } else {
                screen::select_picture(
                    r,
                    assets,
                    REPLY_SCALE,
                    TargetVersion::Latest,
                    OldColorPolicy::Downsample,
                    name,
                )
            },
        ),
        None,
    )
}

/// The reply to a request for the picture of a server.
pub fn image_reply(
    assets: &Assets,
    result: &PingResult,
    style: Option<&str>,
    name: Option<String>,
) -> (r: Reply)
    requires
        assets.wf(),
        image_ready(result.model(), opt_chars(style), text::opt_view(name)),
    ensures
        r.model() == image_answer(
            result.model(),
            assets.model(),
            opt_chars(style),
            text::opt_view(name),
        ),
{
    if wants_card(style) {
        let opts = CardOptions {
            scale: REPLY_SCALE,
            target: TargetVersion::Latest,
            old_color_policy: OldColorPolicy::Downsample,
            background: Rgba { r: 20, g: 20, b: 24, a: 255 },
            title: name,
            checker: true,
        };
        show(render_server_card_png(assets, result, &opts), None)
    } else {
        let opts = ScreenOptions {
            scale: REPLY_SCALE,
            target: TargetVersion::Latest,
            old_color_policy: OldColorPolicy::Downsample,
            title: name,
        };
        show(render_select_server_png(assets, result, &opts), None)
    }
}

// ---- laws ----

/// The edition of a request is read whatever the case of its letters; none, or one that is not known,
/// means any.
pub proof fn editions_are_read_in_any_case(t: Seq<char>)
    ensures
        edition_of(None) is Auto,
        edition_of(Some("java"@)) is Java,
        edition_of(Some("je"@)) is Java,
        edition_of(Some("bedrock"@)) is Bedrock,
        edition_of(Some("be"@)) is Bedrock,
        edition_of(Some("auto"@)) is Auto,
        edition_of(Some(t)) is Java ==> t.len() == 2 || t.len() == 4,
        edition_of(Some(t)) is Bedrock ==> t.len() == 2 || t.len() == 7,
        edition_of(Some(t)) == edition_of(Some(t.map_values(|c: char| text::lower(c)))),
{
    reveal_strlit("java");
    reveal_strlit("je");
    reveal_strlit("bedrock");
    reveal_strlit("be");
    reveal_strlit("auto");
    let f = |c: char| text::lower(c);
    assert("java"@.map_values(f) =~= "java"@);
    assert("je"@.map_values(f) =~= "je"@);
    assert("bedrock"@.map_values(f) =~= "bedrock"@);
    assert("be"@.map_values(f) =~= "be"@);
    assert("auto"@.map_values(f) =~= "auto"@);
    assert("je"@[0] != "be"@[0]);
    assert("auto"@[0] != "java"@[0]);
    assert("auto"@.len() == 4);
    assert(t.map_values(f).map_values(f) =~= t.map_values(f));
}

/// Hosts that are joined by commas are read back, each in its place.
pub proof fn hosts_are_read_back(hosts: Seq<Seq<char>>)
    requires
        hosts.len() > 0,
        forall|i: int|
            0 <= i < hosts.len() ==> (#[trigger] hosts[i]).len() > 0 && !hosts[i].contains(',')
                && !text::is_white(hosts[i].first()) && !text::is_white(hosts[i].last()),
    ensures
        hosts_of(text::joined(hosts, seq![','])) == hosts,
{
    text::splitting_undoes_joining(hosts, ',');
    assert forall|i: int| 0 <= i < hosts.len() implies text::trimmed(#[trigger] hosts[i])
        == hosts[i] by {
        text::trimming_keeps_tight_text(hosts[i]);
    }
    assert(trimmed_all(hosts) =~= hosts);
    lemma_all_kept(hosts);
}

proof fn lemma_all_kept(list: Seq<Seq<char>>)
    requires
        forall|i: int| 0 <= i < list.len() ==> (#[trigger] list[i]).len() > 0,
    ensures
        non_empty(list) == list,
    decreases list.len(),
{
    reveal(Seq::filter);
    if list.len() > 0 {
        let before = list.drop_last();
        assert forall|i: int| 0 <= i < before.len() implies (#[trigger] before[i]).len() > 0 by {
            assert(before[i] == list[i]);
        }
        lemma_all_kept(before);
        assert(list[list.len() - 1].len() > 0);
        assert(non_empty(list) =~= list);
    } else {
        assert(non_empty(list) =~= list);
    }
}

/// Each host is shown under the name that stands at its place, or, without one, as it was given.
pub proof fn names_belong_to_their_hosts(
    hosts: Seq<Seq<char>>,
    names: Seq<Seq<char>>,
    i: int,
)
    requires
        0 <= i < hosts.len(),
        names.len() > 0,
        forall|k: int| 0 <= k < names.len() ==> !(#[trigger] names[k]).contains(','),
    ensures
        name_for(hosts, None, i) == hosts[i],
        i >= names.len() ==> name_for(hosts, Some(text::joined(names, seq![','])), i) == hosts[i],
        i < names.len() && text::trimmed(names[i]).len() > 0 ==> name_for(
            hosts,
            Some(text::joined(names, seq![','])),
            i,
        ) == text::trimmed(names[i]),
        i < names.len() && text::trimmed(names[i]).len() == 0 ==> name_for(
            hosts,
            Some(text::joined(names, seq![','])),
            i,
        ) == hosts[i],
{
    text::splitting_undoes_joining(names, ',');
}

/// Every server either has a card or counts as unreachable; the cards stand in the order of the
/// servers, each with the name of its own for a title.
pub proof fn every_server_has_a_card_or_is_counted(
    entries: Seq<EntryView>,
    e: EntryView,
    assets: AssetsView,
)
    ensures
        entry_cards(entries, assets).len() + down_count(entries) == entries.len(),
        e.result is None ==> down_count(entries.push(e)) == down_count(entries) + 1
            && entry_cards(entries.push(e), assets) == entry_cards(entries, assets),
        e.result matches Some(r) ==> down_count(entries.push(e)) == down_count(entries)
            && entry_cards(entries.push(e), assets) == entry_cards(entries, assets).push(
            card::card_picture(
                r,
                assets,
                4,
                TargetVersion::Latest,
                OldColorPolicy::Downsample,
                Rgba { r: 20, g: 20, b: 24, a: 255 },
                Some(e.name),
                true,
            ),
        ),
    decreases entries.len(),
{
    assert(entries.push(e).drop_last() =~= entries);
    if entries.len() > 0 {
        every_server_has_a_card_or_is_counted(entries.drop_last(), e, assets);
    }
}

/// The reply to a request for several servers: without a style, all of them on one screen, whether
/// they could be reached or not; as cards, those that could be reached, with the number of the
/// others; and a fault of the other side where none could.
pub proof fn lists_are_answered(
    entries: Seq<EntryView>,
    assets: AssetsView,
    style: Option<Seq<char>>,
)
    ensures
        ({
            let a = list_answer(entries, assets, style);
            let cards = entry_cards(entries, assets);
            let stack = motd::png_file(
                canvas::stacked(cards, 16, Rgba { r: 20, g: 20, b: 24, a: 255 }),
            );
            let screen = motd::png_file(
                screen::list_picture(
                    entries,
                    assets,
                    4,
                    TargetVersion::Latest,
                    OldColorPolicy::Downsample,
                ),
            );
            let down = entries.len() - cards.len();
            &&& style == Some("card"@) && cards.len() == 0 ==> a.status == 502 && a.png is None
                && a.text == "all hosts unreachable"@
            &&& style == Some("card"@) && cards.len() > 0 ==> {
                &&& stack matches Ok(b) ==> a.status == 200 && a.png == Some(b) && a.unreachable
                    == (if down > 0 {
                    Some(down as nat)
                } else {
                    None
                })
                &&& stack matches Err(e) ==> a.status == 500 && a.png is None && a.text == e
            }
            &&& style != Some("card"@) ==> {
                &&& screen matches Ok(b) ==> a.status == 200 && a.png == Some(b)
                    && a.unreachable is None
                &&& screen matches Err(e) ==> a.status == 500 && a.png is None && a.text == e
            }
        }),
{
    let nobody = EntryView { name: Seq::empty(), result: None };
    every_server_has_a_card_or_is_counted(entries, nobody, assets);
}

/// The reply to a request for a picture: the card where that is asked for, else the screen with the
/// server, under the name that is given.
pub proof fn pictures_are_answered(
    r: ResultView,
    assets: AssetsView,
    style: Option<Seq<char>>,
    name: Option<Seq<char>>,
)
    ensures
        ({
            let a = image_answer(r, assets, style, name);
            let card = motd::png_file(
                card::card_picture(
                    r,
                    assets,
                    4,
                    TargetVersion::Latest,
                    OldColorPolicy::Downsample,
                    Rgba { r: 20, g: 20, b: 24, a: 255 },
                    name,
                    true,
                ),
            );
            let screen = motd::png_file(
                screen::select_picture(
                    r,
                    assets,
                    4,
                    TargetVersion::Latest,
                    OldColorPolicy::Downsample,
                    name,
                ),
            );
            let file = if style == Some("card"@) {
                card
            } else {
                screen
            };
            &&& a.unreachable is None
            &&& file matches Ok(b) ==> a.status == 200 && a.png == Some(b) && a.text.len() == 0
            &&& file matches Err(e) ==> a.status == 500 && a.png is None && a.text == e
        }),
{
}

/// Where both editions fail, both complaints are told; where only one was asked, its own.
pub proof fn complaints_are_told(je: Seq<char>, be: Seq<char>)
    ensures
        complaint(None, be) == be,
        complaint(Some(je), be) == "JE: "@ + je + " | BE: "@ + be,
        edition_name(Edition::Bedrock) == "bedrock"@,
        edition_name(Edition::Java) == "java"@,
{
}

/// The names of the players are those of the sample, in its order.
pub proof fn players_are_named(sample: Seq<(Seq<char>, Seq<char>)>, i: int)
    requires
        0 <= i < sample.len(),
    ensures
        names_of(sample).len() == sample.len(),
        names_of(sample)[i] == sample[i].0,
{
}

} // verus!
