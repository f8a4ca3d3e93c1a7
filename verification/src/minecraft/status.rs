//! The status of a server, read leniently from its JSON.
//!
//! Types are taken loosely (servers send numbers as texts, or with a fraction), values are taken as
//! they come. A member that cannot be used never spoils the rest.
//!
//! Numbers that are not 64-bit integers are read as floating point and cut off. That reading is
//! handed in: [`unread_numbers`] lists the texts that need it, and the functions that take a status
//! apart look them up.

use vstd::prelude::*;
use crate::minecraft::component;
use crate::minecraft::component::{Component, ComponentView};
use crate::minecraft::forge;
use crate::minecraft::json;
use crate::minecraft::json::{Json, JsonView};
use crate::minecraft::outside;
use crate::minecraft::text;

verus! {

/// A server's status.
#[derive(Debug)]
pub struct StatusResponse {
    pub version: Version,
    pub players: Option<Players>,
    pub description: Component,
    pub favicon: Option<String>,
    pub enforces_secure_chat: Option<bool>,
    pub previews_chat: Option<bool>,
    pub prevents_chat_reports: Option<bool>,
    /// The server has mods, of which nothing else is said.
    pub is_modded: Option<bool>,
    /// The mod list of old Forge servers.
    pub modinfo: Option<Json>,
    /// The mod list of newer Forge servers.
    pub forge_data: Option<Json>,
    /// The modpack that the server runs.
    pub modpack: Option<Modpack>,
}

/// The name and the version of a modpack.
#[derive(Debug, Clone)]
pub struct Modpack {
    pub name: String,
    pub version: String,
}

/// The version that a server reports.
#[derive(Debug, Clone)]
pub struct Version {
    /// Free text.
    pub name: Option<String>,
    pub protocol: i32,
    /// The protocol numbers that the server takes besides; most servers do not say.
    pub supported_versions: Vec<i32>,
}

/// The players of a server.
#[derive(Debug, Clone)]
pub struct Players {
    pub max: i64,
    pub online: i64,
    /// Some of the players, or lines of text in their place.
    pub sample: Vec<Player>,
}

/// A player, or a line of text.
#[derive(Debug, Clone)]
pub struct Player {
    pub name: String,
    pub id: String,
}

/// The mod loader of a server.
#[derive(Debug, Clone, Copy, PartialEq, Eq, Structural)]
pub enum ModLoader {
    Forge,
    /// The server says no more than that it has mods.
    Modded,
}

/// The mods of a server.
#[derive(Debug, Clone)]
pub struct ServerMods {
    pub loader: ModLoader,
    /// Name and version of each mod that is known.
    pub mods: Vec<(String, String)>,
    /// How many mods there are, where that is known.
    pub mod_count: Option<usize>,
    pub channel_count: Option<usize>,
    pub truncated: bool,
}

/// What a [`Version`] holds.
#[verifier::ext_equal]
pub struct VersionView {
    pub name: Option<Seq<char>>,
    pub protocol: i32,
    pub supported_versions: Seq<i32>,
}

/// What a [`Players`] holds; a player is a name and an id.
#[verifier::ext_equal]
pub struct PlayersView {
    pub max: i64,
    pub online: i64,
    pub sample: Seq<(Seq<char>, Seq<char>)>,
}

/// What a [`StatusResponse`] holds; a modpack is a name and a version.
#[verifier::ext_equal]
pub struct StatusView {
    pub version: VersionView,
    pub players: Option<PlayersView>,
    pub description: ComponentView,
    pub favicon: Option<Seq<char>>,
    pub enforces_secure_chat: Option<bool>,
    pub previews_chat: Option<bool>,
    pub prevents_chat_reports: Option<bool>,
    pub is_modded: Option<bool>,
    pub modinfo: Option<JsonView>,
    pub forge_data: Option<JsonView>,
    pub modpack: Option<(Seq<char>, Seq<char>)>,
}

/// What a [`ServerMods`] holds.
#[verifier::ext_equal]
pub struct ModsView {
    pub loader: ModLoader,
    pub mods: Seq<(Seq<char>, Seq<char>)>,
    pub mod_count: Option<nat>,
    pub channel_count: Option<nat>,
    pub truncated: bool,
}

/// Name and id of each player.
pub open spec fn player_views(list: Seq<Player>) -> Seq<(Seq<char>, Seq<char>)> {
    Seq::new(list.len(), |i: int| (list[i].name@, list[i].id@))
}

/// An optional count as a number.
pub open spec fn opt_count(n: Option<usize>) -> Option<nat> {
    match n {
        Some(x) => Some(x as nat),
        None => None,
    }
}

/// What an optional value holds.
pub open spec fn opt_json(v: Option<Json>) -> Option<JsonView> {
    match v {
        Some(j) => Some(j.model()),
        None => None,
    }
}

/// What optional players hold.
pub open spec fn opt_players(p: Option<Players>) -> Option<PlayersView> {
    match p {
        Some(x) => Some(x.model()),
        None => None,
    }
}

/// What an optional modpack holds.
pub open spec fn opt_modpack(p: Option<Modpack>) -> Option<(Seq<char>, Seq<char>)> {
    match p {
        Some(x) => Some((x.name@, x.version@)),
        None => None,
    }
}

/// What optional mods hold.
pub open spec fn opt_mods(p: Option<ServerMods>) -> Option<ModsView> {
    match p {
        Some(x) => Some(x.model()),
        None => None,
    }
}

impl Version {
    /// What the version holds.
    pub open spec fn model(self) -> VersionView {
        VersionView {
            name: text::opt_view(self.name),
            protocol: self.protocol,
            supported_versions: self.supported_versions@,
        }
    }
}

impl Players {
    /// What the players hold.
    pub open spec fn model(self) -> PlayersView {
        PlayersView { max: self.max, online: self.online, sample: player_views(self.sample@) }
    }
}

impl ServerMods {
    /// What the mods hold.
    pub open spec fn model(self) -> ModsView {
        ModsView {
            loader: self.loader,
            mods: forge::pair_views(self.mods@),
            mod_count: opt_count(self.mod_count),
            channel_count: opt_count(self.channel_count),
            truncated: self.truncated,
        }
    }
}

impl StatusResponse {
    /// What the status holds.
    pub open spec fn model(self) -> StatusView {
        StatusView {
            version: self.version.model(),
            players: opt_players(self.players),
            description: self.description.model(),
            favicon: text::opt_view(self.favicon),
            enforces_secure_chat: self.enforces_secure_chat,
            previews_chat: self.previews_chat,
            prevents_chat_reports: self.prevents_chat_reports,
            is_modded: self.is_modded,
            modinfo: opt_json(self.modinfo),
            forge_data: opt_json(self.forge_data),
            modpack: opt_modpack(self.modpack),
        }
    }
}

// ---- lenient values ----

/// Texts with the integers that they are read as.
pub open spec fn readings_view(list: Seq<(String, i64)>) -> Seq<(Seq<char>, i64)> {
    Seq::new(list.len(), |i: int| (list[i].0@, list[i].1))
}

/// The reading of a text: the first one for it, or zero.
pub open spec fn reading(list: Seq<(Seq<char>, i64)>, t: Seq<char>) -> i64
    decreases list.len(),
{
    if list.len() == 0 {
        0
    } else if list[0].0 == t {
        list[0].1
    } else {
        reading(list.drop_first(), t)
    }
}

/// The text of a value that is a number but no 64-bit integer, without the white space at its
/// ends.
pub open spec fn unread(v: JsonView) -> Option<Seq<char>> {
    match v {
        JsonView::Number(None, t) => Some(t),
        JsonView::Text(s) => if text::as_i64(text::trimmed(s)) is None {
            Some(text::trimmed(s))
        } else {
            None
        },
        _ => None,
    }
}

/// The integer of a number, or of a text that is one; zero for anything else.
pub open spec fn integer(v: JsonView, readings: Seq<(Seq<char>, i64)>) -> i64 {
    match (v, unread(v)) {
        (_, Some(t)) => reading(readings, t),
        (JsonView::Number(Some(n), _), _) => n,
        (JsonView::Text(s), _) => text::as_i64(text::trimmed(s))->0,
        _ => 0,
    }
}

/// The integer of a member, or zero.
pub open spec fn integer_member(v: JsonView, key: Seq<char>, readings: Seq<(Seq<char>, i64)>) -> i64 {
    match json::member(v, key) {
        Some(x) => integer(x, readings),
        None => 0,
    }
}

/// The nearest 32-bit integer.
pub open spec fn clamped(n: i64) -> i32 {
    if n < i32::MIN {
        i32::MIN
    } else if n > i32::MAX {
        i32::MAX
    } else {
        n as i32
    }
}

/// The text of a member, or the empty text.
pub open spec fn text_or_empty(v: JsonView, key: Seq<char>) -> Seq<char> {
    component::or_else(json::text_of(json::member(v, key)), Seq::empty())
}

/// The 32-bit integers of several values.
pub open spec fn integers(list: Seq<JsonView>, readings: Seq<(Seq<char>, i64)>) -> Seq<i32> {
    Seq::new(list.len(), |i: int| clamped(integer(list[i], readings)))
}

/// The version that a JSON value describes.
pub open spec fn version_of(v: JsonView, readings: Seq<(Seq<char>, i64)>) -> VersionView {
    VersionView {
        name: json::text_of(json::member(v, "name"@)),
        protocol: clamped(integer_member(v, "protocol"@, readings)),
        supported_versions: match json::items_of(json::member(v, "supportedVersions"@)) {
            Some(a) => integers(a, readings),
            None => Seq::empty(),
        },
    }
}

/// The version of a status that says nothing about it.
pub open spec fn no_version() -> VersionView {
    VersionView { name: None, protocol: 0, supported_versions: Seq::empty() }
}

/// The players that JSON values describe.
pub open spec fn sample_of(list: Seq<JsonView>) -> Seq<(Seq<char>, Seq<char>)> {
    Seq::new(list.len(), |i: int| (text_or_empty(list[i], "name"@), text_or_empty(list[i], "id"@)))
}

/// The players that a JSON object describes.
pub open spec fn players_of(v: JsonView, readings: Seq<(Seq<char>, i64)>) -> Option<PlayersView> {
    if v is Object {
        Some(
            PlayersView {
                max: integer_member(v, "max"@, readings),
                online: integer_member(v, "online"@, readings),
                sample: match json::items_of(json::member(v, "sample"@)) {
                    Some(a) => sample_of(a),
                    None => Seq::empty(),
                },
            },
        )
    } else {
        None
    }
}

/// A name or version of a modpack: without white space at its ends, and empty where it was never
/// set.
pub open spec fn pack_text(v: JsonView, key: Seq<char>) -> Seq<char> {
    let t = text::trimmed(text_or_empty(v, key));
    if t == "??"@ {
        Seq::empty()
    } else {
        t
    }
}

/// The modpack that a JSON object describes, where it says anything.
pub open spec fn modpack_of(v: JsonView) -> Option<(Seq<char>, Seq<char>)> {
    let name = pack_text(v, "name"@);
    let version = pack_text(v, "version"@);
    if !(v is Object) || (name.len() == 0 && version.len() == 0) {
        None
    } else {
        Some((name, version))
    }
}

/// `f` of the value, where there is one.
pub open spec fn chain<T>(v: Option<JsonView>, f: spec_fn(JsonView) -> Option<T>) -> Option<T> {
    match v {
        Some(x) => f(x),
        None => None,
    }
}

/// The status that a JSON value describes.
pub open spec fn status_of(v: JsonView, readings: Seq<(Seq<char>, i64)>) -> StatusView {
    StatusView {
        version: match json::member(v, "version"@) {
            Some(x) => version_of(x, readings),
            None => no_version(),
        },
        players: chain(json::member(v, "players"@), |x: JsonView| players_of(x, readings)),
        description: match json::member(v, "description"@) {
            Some(x) => component::component_of(x),
            None => component::text_view(Seq::empty()),
        },
        favicon: json::text_of(json::member(v, "favicon"@)),
        enforces_secure_chat: json::truth_of(json::member(v, "enforcesSecureChat"@)),
        previews_chat: json::truth_of(json::member(v, "previewsChat"@)),
        prevents_chat_reports: json::truth_of(json::member(v, "preventsChatReports"@)),
        is_modded: json::truth_of(json::member(v, "isModded"@)),
        modinfo: json::member(v, "modinfo"@),
        forge_data: json::member(v, "forgeData"@),
        modpack: chain(
            if json::member(v, "betterStatus"@) is Some {
                json::member(v, "betterStatus"@)
            } else {
                json::member(v, "better-status"@)
            },
            |x: JsonView| modpack_of(x),
        ),
    }
}

/// The reading of a text.
fn look_up(readings: &Vec<(String, i64)>, t: &str) -> (r: i64)
    ensures
        r == reading(readings_view(readings@), t@),
{
    let ghost all = readings_view(readings@);
    assert(all.skip(0) =~= all);
    for i in 0..readings.len()
        invariant
            all == readings_view(readings@),
            reading(all, t@) == reading(all.skip(i as int), t@),
    {
        assert(all.skip(i as int)[0] == all[i as int]);
        assert(all.skip(i as int).drop_first() =~= all.skip(i + 1));
        if text::same(readings[i].0.as_str(), t) {
            return readings[i].1;
        }
    }
    assert(all.skip(all.len() as int).len() == 0);
    0
}

/// The integer of a number, or of a text that is one; zero for anything else.
pub fn as_i64_lenient(v: &Json, readings: &Vec<(String, i64)>) -> (r: i64)
    ensures
        r == integer(v.model(), readings_view(readings@)),
{
    match v {
        Json::Number(Some(n), _) => *n,
        Json::Number(None, t) => look_up(readings, t.as_str()),
        Json::Text(s) => {
            let t = text::trim(s.as_str());
            match text::parse_i64(t.as_str()) {
                Some(n) => n,
                None => look_up(readings, t.as_str()),
            }
        },
        _ => 0,
    }
}

/// The nearest 32-bit integer.
fn clamp_i32(n: i64) -> (r: i32)
    ensures
        r == clamped(n),
{
    if n < -0x8000_0000 {
        -0x8000_0000
    } else if n > 0x7FFF_FFFF {
        0x7FFF_FFFF
    } else {
        n as i32
    }
}

/// The integer of a member, or zero.
fn i64_member(v: &Json, key: &str, readings: &Vec<(String, i64)>) -> (r: i64)
    ensures
        r == integer_member(v.model(), key@, readings_view(readings@)),
{
    match v.get(key) {
        Some(j) => as_i64_lenient(j, readings),
        None => 0,
    }
}

/// The text of a member, or the empty text.
fn text_member_or_empty(v: &Json, key: &str) -> (r: String)
    ensures
        r@ == text_or_empty(v.model(), key@),
{
    match v.text_member(key) {
        Some(s) => s,
        None => String::new(),
    }
}

/// A copy of a member.
fn json_member(v: &Json, key: &str) -> (r: Option<Json>)
    ensures
        opt_json(r) == json::member(v.model(), key@),
{
    match v.get(key) {
        Some(j) => Some(j.duplicate()),
        None => None,
    }
}

impl Modpack {
    /// A name or version of a modpack.
    fn pack_member(v: &Json, key: &str) -> (r: String)
        ensures
            r@ == pack_text(v.model(), key@),
    {
        let s = text_member_or_empty(v, key);
        let t = text::trim(s.as_str());
        if text::same(t.as_str(), "??") {
            String::new()
        } else {
            t
        }
    }

    /// The modpack that a JSON object describes, where it says anything.
    pub fn from_value(v: &Json) -> (r: Option<Modpack>)
        ensures
            opt_modpack(r) == modpack_of(v.model()),
    {
        match v {
            Json::Object(_) => {
                let name = Modpack::pack_member(v, "name");
                let version = Modpack::pack_member(v, "version");
                if name.as_str().is_empty() && version.as_str().is_empty() {
                    None
                } else {
                    Some(Modpack { name, version })
                }
            },
            _ => None,
        }
    }
}

impl Default for Version {
    fn default() -> (r: Self)
        ensures
            r.model() == no_version(),
    {
        Version { name: None, protocol: 0, supported_versions: Vec::new() }
    }
}

impl Version {
    /// The version that a JSON value describes.
    pub fn from_value(v: &Json, readings: &Vec<(String, i64)>) -> (r: Self)
        ensures
            r.model() == version_of(v.model(), readings_view(readings@)),
    {
        let mut supported_versions: Vec<i32> = Vec::new();
        let ghost rs = readings_view(readings@);
        if let Some(j) = v.get("supportedVersions") {
            if let Some(a) = j.as_array() {
                let ghost items = json::models(a@);
                for i in 0..a.len()
                    invariant
                        rs == readings_view(readings@),
                        items == json::models(a@),
                        supported_versions@ =~= integers(items, rs).take(i as int),
                {
                    supported_versions.push(clamp_i32(as_i64_lenient(&a[i], readings)));
                }
                assert(supported_versions@ =~= integers(items, rs));
            }
        }
        Version {
            name: v.text_member("name"),
            protocol: clamp_i32(i64_member(v, "protocol", readings)),
            supported_versions,
        }
    }
}

impl Player {
    /// The player that a JSON value describes.
    pub fn from_value(v: &Json) -> (r: Player)
        ensures
            r.name@ == text_or_empty(v.model(), "name"@),
            r.id@ == text_or_empty(v.model(), "id"@),
    {
        Player { name: text_member_or_empty(v, "name"), id: text_member_or_empty(v, "id") }
    }
}

impl Players {
    /// The players that a JSON object describes.
    pub fn from_value(v: &Json, readings: &Vec<(String, i64)>) -> (r: Option<Players>)
        ensures
            opt_players(r) == players_of(v.model(), readings_view(readings@)),
    {
        match v {
            Json::Object(_) => {},
            _ => {
                return None;
            },
        }
        let mut sample: Vec<Player> = Vec::new();
        assert(player_views(sample@) =~= Seq::empty());
        if let Some(j) = v.get("sample") {
            if let Some(a) = j.as_array() {
                let ghost items = json::models(a@);
                for i in 0..a.len()
                    invariant
                        items == json::models(a@),
                        player_views(sample@) =~= sample_of(items).take(i as int),
                {
                    let ghost before = player_views(sample@);
                    sample.push(Player::from_value(&a[i]));
                    assert(player_views(sample@) =~= before.push(sample_of(items)[i as int]));
                }
                assert(player_views(sample@) =~= sample_of(items));
            }
        }
        Some(
            Players {
                max: i64_member(v, "max", readings),
                online: i64_member(v, "online", readings),
                sample,
            },
        )
    }
}

impl StatusResponse {
    /// The status that a JSON value describes.
    pub fn from_value(v: &Json, readings: &Vec<(String, i64)>) -> (r: Self)
        ensures
            r.model() == status_of(v.model(), readings_view(readings@)),
    {
        let version = match v.get("version") {
            Some(j) => Version::from_value(j, readings),
            None => Version::default(),
        };
        let players = match v.get("players") {
            Some(j) => Players::from_value(j, readings),
            None => None,
        };
        let description = match v.get("description") {
            Some(j) => Component::from_json(j),
            None => Component::default(),
        };
        let modpack = match v.get("betterStatus") {
            Some(j) => Modpack::from_value(j),
            None => match v.get("better-status") {
                Some(j) => Modpack::from_value(j),
                None => None,
            },
        };
        StatusResponse {
            version,
            players,
            description,
            favicon: v.text_member("favicon"),
            enforces_secure_chat: v.flag_member("enforcesSecureChat"),
            previews_chat: v.flag_member("previewsChat"),
            prevents_chat_reports: v.flag_member("preventsChatReports"),
            is_modded: v.flag_member("isModded"),
            modinfo: json_member(v, "modinfo"),
            forge_data: json_member(v, "forgeData"),
            modpack,
        }
    }
}

// ---- numbers that need a reading ----

/// A list of the value, where there is one.
pub open spec fn listed(v: Option<JsonView>) -> Seq<JsonView> {
    match v {
        Some(x) => seq![x],
        None => Seq::empty(),
    }
}

/// The values of a version that are read as integers.
pub open spec fn version_numbers(v: Option<JsonView>) -> Seq<JsonView> {
    match v {
        Some(x) => listed(json::member(x, "protocol"@)) + component::or_else(
            json::items_of(json::member(x, "supportedVersions"@)),
            Seq::empty(),
        ),
        None => Seq::empty(),
    }
}

/// The values of players that are read as integers.
pub open spec fn player_numbers(v: Option<JsonView>) -> Seq<JsonView> {
    match v {
        Some(x) => listed(json::member(x, "max"@)) + listed(json::member(x, "online"@)),
        None => Seq::empty(),
    }
}

/// The values of a status that are read as integers.
pub open spec fn status_numbers(v: JsonView) -> Seq<JsonView> {
    version_numbers(json::member(v, "version"@)) + player_numbers(json::member(v, "players"@))
}

/// The texts among the values that need a reading.
pub open spec fn unread_of(list: Seq<JsonView>) -> Seq<Seq<char>>
    decreases list.len(),
{
    if list.len() == 0 {
        Seq::empty()
    } else {
        match unread(list.last()) {
            Some(t) => unread_of(list.drop_last()).push(t),
            None => unread_of(list.drop_last()),
        }
    }
}

/// Appends the text of a value that needs a reading.
fn push_unread(v: &Json, out: &mut Vec<String>, Ghost(before): Ghost<Seq<JsonView>>)
    requires
        text::views(old(out)@) == unread_of(before),
    ensures
        text::views(final(out)@) == unread_of(before.push(v.model())),
{
    assert(before.push(v.model()).drop_last() =~= before);
    match v {
        Json::Number(None, t) => {
            out.push(t.clone());
        },
        Json::Text(s) => {
            let t = text::trim(s.as_str());
            if text::parse_i64(t.as_str()).is_none() {
                out.push(t);
            }
        },
        _ => {},
    }
    assert(text::views(out@) =~= unread_of(before.push(v.model())));
}

/// The texts of a status that need a reading.
pub fn unread_numbers(v: &Json) -> (r: Vec<String>)
    ensures
        text::views(r@) == unread_of(status_numbers(v.model())),
{
    let mut out: Vec<String> = Vec::new();
    let ghost mut done: Seq<JsonView> = Seq::empty();
    assert(text::views(out@) =~= unread_of(done));
    if let Some(version) = v.get("version") {
        if let Some(j) = version.get("protocol") {
            push_unread(j, &mut out, Ghost(done));
            proof {
                done = done.push(j.model());
            }
        }
        if let Some(j) = version.get("supportedVersions") {
            if let Some(a) = j.as_array() {
                let ghost start = done;
                for i in 0..a.len()
                    invariant
                        done =~= start + json::models(a@).take(i as int),
                        text::views(out@) == unread_of(done),
                {
                    push_unread(&a[i], &mut out, Ghost(done));
                    proof {
                        done = done.push(a@[i as int].model());
                    }
                }
            }
        }
    }
    assert(done =~= version_numbers(json::member(v.model(), "version"@)));
    if let Some(players) = v.get("players") {
        if let Some(j) = players.get("max") {
            push_unread(j, &mut out, Ghost(done));
            proof {
                done = done.push(j.model());
            }
        }
        if let Some(j) = players.get("online") {
            push_unread(j, &mut out, Ghost(done));
            proof {
                done = done.push(j.model());
            }
        }
    }
    assert(done =~= status_numbers(v.model()));
    out
}

/// Every text that needs a reading has the same one in both lists.
pub open spec fn agree(
    list: Seq<JsonView>,
    a: Seq<(Seq<char>, i64)>,
    b: Seq<(Seq<char>, i64)>,
) -> bool {
    forall|i: int|
        0 <= i < list.len() ==> (unread(#[trigger] list[i]) matches Some(t) ==> reading(a, t)
            == reading(b, t))
}

/// Only the readings of the listed texts matter to a status.
pub proof fn only_listed_readings_matter(
    v: JsonView,
    a: Seq<(Seq<char>, i64)>,
    b: Seq<(Seq<char>, i64)>,
)
    requires
        agree(status_numbers(v), a, b),
    ensures
        status_of(v, a) == status_of(v, b),
{
    let all = status_numbers(v);
    let first = version_numbers(json::member(v, "version"@));
    assert forall|x: JsonView| #[trigger] all.contains(x) implies integer(x, a) == integer(x, b) by {
        let i = choose|i: int| 0 <= i < all.len() && all[i] == x;
        assert(unread(all[i]) matches Some(t) ==> reading(a, t) == reading(b, t));
    }
    if let Some(x) = json::member(v, "version"@) {
        if let Some(y) = json::member(x, "protocol"@) {
            assert(all[0] == y);
            assert(all.contains(y));
        }
        if let Some(items) = json::items_of(json::member(x, "supportedVersions"@)) {
            let k = listed(json::member(x, "protocol"@)).len();
            assert forall|i: int| 0 <= i < items.len() implies integer(items[i], a) == integer(
                items[i],
                b,
            ) by {
                assert(all[k + i] == items[i]);
                assert(all.contains(items[i]));
            }
            assert(integers(items, a) =~= integers(items, b));
        }
    }
    if let Some(x) = json::member(v, "players"@) {
        let n = first.len() as int;
        if let Some(y) = json::member(x, "max"@) {
            assert(all[n] == y);
            assert(all.contains(y));
        }
        if let Some(y) = json::member(x, "online"@) {
            assert(all[all.len() - 1] == y);
            assert(all.contains(y));
        }
    }
}

// ---- mods ----

/// The mods of a list: name and version of each item that has a name.
pub open spec fn listed_mods(
    list: Seq<JsonView>,
    name: Seq<char>,
    version: Seq<char>,
) -> Seq<(Seq<char>, Seq<char>)>
    decreases list.len(),
{
    if list.len() == 0 {
        Seq::empty()
    } else {
        let before = listed_mods(list.drop_last(), name, version);
        match json::text_of(json::member(list.last(), name)) {
            Some(n) => before.push((n, text_or_empty(list.last(), version))),
            None => before,
        }
    }
}

/// How many items a member has that is an array.
pub open spec fn item_count(v: JsonView, key: Seq<char>) -> Option<nat> {
    match json::items_of(json::member(v, key)) {
        Some(a) => Some(a.len()),
        None => None,
    }
}

/// The mods that a newer Forge server describes: in plain, packed into one text, or not in a way
/// that can be read.
pub open spec fn forge_mods(fd: JsonView) -> ModsView {
    let truncated = json::member(fd, "truncated"@) == Some(JsonView::Bool(true));
    let channels = item_count(fd, "channels"@);
    let plain = component::or_else(json::items_of(json::member(fd, "mods"@)), Seq::empty());
    let packed = match json::text_of(json::member(fd, "d"@)) {
        Some(d) => forge::decoded(d),
        None => None,
    };
    if plain.len() > 0 {
        let mods = listed_mods(plain, "modId"@, "modmarker"@);
        ModsView {
            loader: ModLoader::Forge,
            mods,
            mod_count: Some(mods.len()),
            channel_count: channels,
            truncated,
        }
    } else {
        match packed {
            Some(m) => ModsView {
                loader: ModLoader::Forge,
                mods: m.mods,
                mod_count: Some(m.mods.len()),
                channel_count: if channels is Some {
                    channels
                } else {
                    Some(m.channels)
                },
                truncated: truncated || m.truncated,
            },
            None => ModsView {
                loader: ModLoader::Forge,
                mods: Seq::empty(),
                mod_count: None,
                channel_count: channels,
                truncated,
            },
        }
    }
}

/// The mods that an old Forge server describes.
pub open spec fn old_forge_mods(mi: JsonView) -> ModsView {
    let mods = listed_mods(
        component::or_else(json::items_of(json::member(mi, "modList"@)), Seq::empty()),
        "modid"@,
        "version"@,
    );
    ModsView {
        loader: ModLoader::Forge,
        mods,
        mod_count: Some(mods.len()),
        channel_count: None,
        truncated: false,
    }
}

/// The mods of a server that only says that it has some.
pub open spec fn some_mods() -> ModsView {
    ModsView {
        loader: ModLoader::Modded,
        mods: Seq::empty(),
        mod_count: None,
        channel_count: None,
        truncated: false,
    }
}

/// The mods of a server: by `forgeData`, else by `modinfo` of the type `FML`, else by `isModded`.
pub open spec fn mods_of(s: StatusView) -> Option<ModsView> {
    if s.forge_data is Some {
        Some(forge_mods(s.forge_data->0))
    } else if s.modinfo is Some && json::text_of(json::member(s.modinfo->0, "type"@)) == Some(
        "FML"@,
    ) {
        Some(old_forge_mods(s.modinfo->0))
    } else if s.is_modded == Some(true) {
        Some(some_mods())
    } else {
        None
    }
}

/// The mods of a list: name and version of each item that has a name.
fn list_mods(list: &Vec<Json>, name: &str, version: &str) -> (r: Vec<(String, String)>)
    ensures
        forge::pair_views(r@) == listed_mods(json::models(list@), name@, version@),
{
    let mut out: Vec<(String, String)> = Vec::new();
    let ghost all = json::models(list@);
    assert(all.take(0) =~= Seq::empty());
    assert(forge::pair_views(out@) =~= Seq::empty());
    for i in 0..list.len()
        invariant
            all == json::models(list@),
            forge::pair_views(out@) =~= listed_mods(all.take(i as int), name@, version@),
    {
        let ghost before = forge::pair_views(out@);
        assert(all.take(i + 1).drop_last() =~= all.take(i as int));
        assert(all.take(i + 1).last() == list@[i as int].model());
        if let Some(n) = list[i].text_member(name) {
            let v = text_member_or_empty(&list[i], version);
            out.push((n, v));
            assert(forge::pair_views(out@) =~= before.push((n@, v@)));
        }
    }
    assert(all.take(all.len() as int) =~= all);
    out
}

/// The mods that a newer Forge server describes.
pub fn parse_forge_data(fd: &Json) -> (r: ServerMods)
    ensures
        r.model() == forge_mods(fd.model()),
{
    let channels: Option<usize> = match fd.get("channels") {
        Some(j) => match j.as_array() {
            Some(a) => Some(a.len()),
            None => None,
        },
        None => None,
    };
    let truncated = match fd.get("truncated") {
        Some(Json::Bool(b)) => *b,
        _ => false,
    };
    if let Some(j) = fd.get("mods") {
        if let Some(a) = j.as_array() {
            assert(json::models(a@).len() == a@.len());
            if a.len() > 0 {
                let mods = list_mods(a, "modId", "modmarker");
                assert(forge::pair_views(mods@).len() == mods@.len());
                let n: usize = mods.len();
                return ServerMods {
                    loader: ModLoader::Forge,
                    mods,
                    mod_count: Some(n),
                    channel_count: channels,
                    truncated,
                };
            }
        }
    }
    if let Some(j) = fd.get("d") {
        if let Some(d) = j.as_str() {
            if let Some(list) = forge::decode_forge_d(d) {
                assert(forge::pair_views(list.mods@).len() == list.mods@.len());
                let n: usize = list.mods.len();
                return ServerMods {
                    loader: ModLoader::Forge,
                    mods: list.mods,
                    mod_count: Some(n),
                    channel_count: if channels.is_some() {
                        channels
                    } else {
                        Some(list.channels)
                    },
                    truncated: truncated || list.truncated,
                };
            }
        }
    }
    let mods: Vec<(String, String)> = Vec::new();
    assert(forge::pair_views(mods@) =~= Seq::empty());
    ServerMods {
        loader: ModLoader::Forge,
        mods,
        mod_count: None,
        channel_count: channels,
        truncated,
    }
}

impl StatusResponse {
    /// The mods of the server.
    pub fn mods(&self) -> (r: Option<ServerMods>)
        ensures
            opt_mods(r) == mods_of(self.model()),
    {
        if let Some(fd) = &self.forge_data {
            return Some(parse_forge_data(fd));
        }
        if let Some(mi) = &self.modinfo {
            let kind = mi.text_member("type");
            let is_fml = match &kind {
                Some(t) => text::same(t.as_str(), "FML"),
                None => false,
            };
            if is_fml {
                let mods = match mi.get("modList") {
                    Some(j) => match j.as_array() {
                        Some(a) => list_mods(a, "modid", "version"),
                        None => Vec::new(),
                    },
                    None => Vec::new(),
                };
                assert(forge::pair_views(mods@) =~= old_forge_mods(mi.model()).mods);
                let n: usize = mods.len();
                return Some(
                    ServerMods {
                        loader: ModLoader::Forge,
                        mods,
                        mod_count: Some(n),
                        channel_count: None,
                        truncated: false,
                    },
                );
            }
        }
        if let Some(true) = self.is_modded {
            let mods: Vec<(String, String)> = Vec::new();
            assert(forge::pair_views(mods@) =~= Seq::empty());
            return Some(
                ServerMods {
                    loader: ModLoader::Modded,
                    mods,
                    mod_count: None,
                    channel_count: None,
                    truncated: false,
                },
            );
        }
        None
    }
}

// ---- favicon ----

/// The Base64 text of a favicon: what follows `base64,`, or everything, without white space.
pub open spec fn favicon_text(data: Seq<char>) -> Seq<char> {
    match text::cut(data, "base64,"@) {
        Some(parts) => text::squeezed(parts.1),
        None => text::squeezed(data),
    }
}

/// The bytes, unless there are none.
pub open spec fn some_bytes(b: Option<Seq<u8>>) -> Option<Seq<u8>> {
    match b {
        Some(x) => if x.len() > 0 {
            Some(x)
        } else {
            None
        },
        None => None,
    }
}

/// The optional bytes.
pub open spec fn opt_bytes(b: Option<Vec<u8>>) -> Option<Seq<u8>> {
    match b {
        Some(x) => Some(x@),
        None => None,
    }
}

/// The Base64 text of a favicon.
pub fn favicon_payload(data: &str) -> (r: String)
    ensures
        r@ == favicon_text(data@),
{
    match text::split_once(data, "base64,") {
        Some((_, rest)) => text::without_whitespace(rest.as_str()),
        None => text::without_whitespace(data),
    }
}

/// The bytes, unless there are none.
pub fn non_empty(b: Option<Vec<u8>>) -> (r: Option<Vec<u8>>)
    ensures
        opt_bytes(r) == some_bytes(opt_bytes(b)),
{
    match b {
        Some(x) => {
            if x.len() > 0 {
                Some(x)
            } else {
                None
            }
        },
        None => None,
    }
}

impl StatusResponse {
    /// The bytes of the favicon's image. The text may have any prefix up to `base64,`, or none, and
    /// may hold white space.
    pub fn favicon_png(&self) -> (r: Option<Vec<u8>>)
        ensures
            opt_bytes(r) == (match self.favicon {
                Some(data) => some_bytes(
                    outside::base64_of(vstd::utf8::encode_utf8(favicon_text(data@))),
                ),
                None => None,
            }),
    {
        match &self.favicon {
            Some(data) => {
                let payload = favicon_payload(data.as_str());
                non_empty(outside::decode_base64(payload.as_str().as_bytes()))
            },
            None => None,
        }
    }
}

// ---- laws ----

/// Each part of a status depends on its own member alone: whatever is wrong with one of them spoils
/// no other.
pub proof fn bad_members_spoil_nothing_else(
    v: JsonView,
    w: JsonView,
    readings: Seq<(Seq<char>, i64)>,
)
    ensures
        json::member(v, "version"@) == json::member(w, "version"@) ==> status_of(
            v,
            readings,
        ).version == status_of(w, readings).version,
        json::member(v, "players"@) == json::member(w, "players"@) ==> status_of(
            v,
            readings,
        ).players == status_of(w, readings).players,
        json::member(v, "description"@) == json::member(w, "description"@) ==> status_of(
            v,
            readings,
        ).description == status_of(w, readings).description,
        json::member(v, "favicon"@) == json::member(w, "favicon"@) ==> status_of(
            v,
            readings,
        ).favicon == status_of(w, readings).favicon,
        json::member(v, "modinfo"@) == json::member(w, "modinfo"@) ==> status_of(
            v,
            readings,
        ).modinfo == status_of(w, readings).modinfo,
        json::member(v, "forgeData"@) == json::member(w, "forgeData"@) ==> status_of(
            v,
            readings,
        ).forge_data == status_of(w, readings).forge_data,
        json::member(v, "isModded"@) == json::member(w, "isModded"@) ==> status_of(
            v,
            readings,
        ).is_modded == status_of(w, readings).is_modded,
        json::member(v, "enforcesSecureChat"@) == json::member(w, "enforcesSecureChat"@)
            ==> status_of(v, readings).enforces_secure_chat == status_of(
            w,
            readings,
        ).enforces_secure_chat,
        json::member(v, "previewsChat"@) == json::member(w, "previewsChat"@) ==> status_of(
            v,
            readings,
        ).previews_chat == status_of(w, readings).previews_chat,
        json::member(v, "preventsChatReports"@) == json::member(w, "preventsChatReports"@)
            ==> status_of(v, readings).prevents_chat_reports == status_of(
            w,
            readings,
        ).prevents_chat_reports,
        json::member(v, "betterStatus"@) == json::member(w, "betterStatus"@) && json::member(
            v,
            "better-status"@,
        ) == json::member(w, "better-status"@) ==> status_of(v, readings).modpack == status_of(
            w,
            readings,
        ).modpack,
{
}

/// The description of every status has colours that there are.
pub proof fn descriptions_have_known_colors(v: JsonView, readings: Seq<(Seq<char>, i64)>)
    ensures
        component::colors_ok(status_of(v, readings).description),
{
    if let Some(x) = json::member(v, "description"@) {
        component::json_components_have_known_colors(x);
    }
}

// ---- copies and defaults ----

impl Clone for StatusResponse {
    fn clone(&self) -> (r: Self)
        ensures
            r.model() == self.model(),
    {
        let players = match &self.players {
            Some(p) => Some(
                Players { max: p.max, online: p.online, sample: duplicate_sample(&p.sample) },
            ),
            None => None,
        };
        let modpack = match &self.modpack {
            Some(m) => Some(Modpack { name: m.name.clone(), version: m.version.clone() }),
            None => None,
        };
        let modinfo = match &self.modinfo {
            Some(j) => Some(j.duplicate()),
            None => None,
        };
        let forge_data = match &self.forge_data {
            Some(j) => Some(j.duplicate()),
            None => None,
        };
        let mut supported_versions: Vec<i32> = Vec::new();
        supported_versions.extend_from_slice(self.version.supported_versions.as_slice());
        assert(supported_versions@ =~= self.version.supported_versions@);
        StatusResponse {
            version: Version {
                name: self.version.name.clone(),
                protocol: self.version.protocol,
                supported_versions,
            },
            players,
            description: self.description.duplicate(),
            favicon: self.favicon.clone(),
            enforces_secure_chat: self.enforces_secure_chat,
            previews_chat: self.previews_chat,
            prevents_chat_reports: self.prevents_chat_reports,
            is_modded: self.is_modded,
            modinfo,
            forge_data,
            modpack,
        }
    }
}

/// Copies of players.
fn duplicate_sample(list: &Vec<Player>) -> (r: Vec<Player>)
    ensures
        player_views(r@) == player_views(list@),
{
    let mut out: Vec<Player> = Vec::new();
    for i in 0..list.len()
        invariant
            player_views(out@) =~= player_views(list@).take(i as int),
    {
        let ghost before = player_views(out@);
        out.push(Player { name: list[i].name.clone(), id: list[i].id.clone() });
        assert(player_views(out@) =~= before.push(player_views(list@)[i as int]));
    }
    assert(player_views(list@).take(list@.len() as int) =~= player_views(list@));
    out
}

impl Default for Modpack {
    fn default() -> (r: Self)
        ensures
            r.name@ == Seq::<char>::empty(),
            r.version@ == Seq::<char>::empty(),
    {
        Modpack { name: String::new(), version: String::new() }
    }
}

impl Default for Player {
    fn default() -> (r: Self)
        ensures
            r.name@ == Seq::<char>::empty(),
            r.id@ == Seq::<char>::empty(),
    {
        Player { name: String::new(), id: String::new() }
    }
}

impl Default for Players {
    fn default() -> (r: Self)
        ensures
            r.model() == (PlayersView { max: 0, online: 0, sample: Seq::empty() }),
    {
        let sample: Vec<Player> = Vec::new();
        assert(player_views(sample@) =~= Seq::empty());
        Players { max: 0, online: 0, sample }
    }
}

/// A status that says nothing.
pub open spec fn no_status() -> StatusView {
    StatusView {
        version: no_version(),
        players: None,
        description: component::text_view(Seq::empty()),
        favicon: None,
        enforces_secure_chat: None,
        previews_chat: None,
        prevents_chat_reports: None,
        is_modded: None,
        modinfo: None,
        forge_data: None,
        modpack: None,
    }
}

impl Default for StatusResponse {
    fn default() -> (r: Self)
        ensures
            r.model() == no_status(),
    {
        StatusResponse {
            version: Version::default(),
            players: None,
            description: Component::default(),
            favicon: None,
            enforces_secure_chat: None,
            previews_chat: None,
            prevents_chat_reports: None,
            is_modded: None,
            modinfo: None,
            forge_data: None,
            modpack: None,
        }
    }
}

/// A value without members, such as an empty object, describes a status that says nothing.
pub proof fn empty_objects_say_nothing(readings: Seq<(Seq<char>, i64)>)
    ensures
        status_of(JsonView::Object(Seq::empty()), readings) == no_status(),
{
}

// ---- what a status says ----

/// A number is itself, also when it is written as a text with white space around it.
pub proof fn numbers_are_read_leniently(
    n: i64,
    t: Seq<char>,
    readings: Seq<(Seq<char>, i64)>,
)
    ensures
        integer(JsonView::Number(Some(n), t), readings) == n,
        text::as_i64(text::trimmed(t)) == Some(n) ==> integer(JsonView::Text(t), readings) == n,
        integer(JsonView::Null, readings) == 0,
        integer(JsonView::Bool(true), readings) == 0,
        readings.len() > 0 && readings[0].0 == t ==> integer(JsonView::Number(None, t), readings)
            == readings[0].1,
        integer(JsonView::Number(None, t), Seq::empty()) == 0,
{
}

/// The version of a status has the name, the protocol number and the supported numbers that its
/// member says; numbers beyond 32 bits count as the nearest.
pub proof fn versions_are_read(
    v: JsonView,
    x: JsonView,
    name: Seq<char>,
    n: i64,
    t: Seq<char>,
    a: Seq<JsonView>,
    readings: Seq<(Seq<char>, i64)>,
)
    requires
        json::member(v, "version"@) == Some(x),
        json::member(x, "name"@) == Some(JsonView::Text(name)),
        json::member(x, "protocol"@) == Some(JsonView::Number(Some(n), t)),
        json::member(x, "supportedVersions"@) == Some(JsonView::Array(a)),
    ensures
        ({
            let got = status_of(v, readings).version;
            &&& got.name == Some(name)
            &&& i32::MIN <= n <= i32::MAX ==> got.protocol == n
            &&& n > i32::MAX ==> got.protocol == i32::MAX
            &&& n < i32::MIN ==> got.protocol == i32::MIN
            &&& got.supported_versions.len() == a.len()
            &&& forall|i: int|
                0 <= i < a.len() ==> (a[i] matches JsonView::Number(Some(k), _) ==> i32::MIN <= k
                    <= i32::MAX ==> #[trigger] got.supported_versions[i] == k)
        }),
{
}

/// The players of a status are those of its member: how many there are and may be, and each player of
/// the sample with name and id, in their order.
pub proof fn players_are_read(
    v: JsonView,
    x: JsonView,
    online: i64,
    max: i64,
    t: Seq<char>,
    u: Seq<char>,
    a: Seq<JsonView>,
    i: int,
    name: Seq<char>,
    id: Seq<char>,
    readings: Seq<(Seq<char>, i64)>,
)
    requires
        json::member(v, "players"@) == Some(x),
        json::member(x, "online"@) == Some(JsonView::Number(Some(online), t)),
        json::member(x, "max"@) == Some(JsonView::Number(Some(max), u)),
        json::member(x, "sample"@) == Some(JsonView::Array(a)),
        0 <= i < a.len(),
        json::member(a[i], "name"@) == Some(JsonView::Text(name)),
        json::member(a[i], "id"@) == Some(JsonView::Text(id)),
    ensures
        ({
            let got = status_of(v, readings).players;
            &&& got is Some
            &&& got->0.online == online
            &&& got->0.max == max
            &&& got->0.sample.len() == a.len()
            &&& got->0.sample[i] == (name, id)
        }),
{
}

/// The other members of a status: description, icon, and what is said about chat and mods.
pub proof fn members_are_read(
    v: JsonView,
    t: Seq<char>,
    b: bool,
    d: JsonView,
    readings: Seq<(Seq<char>, i64)>,
)
    ensures
        ({
            let got = status_of(v, readings);
            let flag = Some(JsonView::Bool(b));
            &&& json::member(v, "description"@) == Some(JsonView::Text(t)) ==> component::content(
                got.description,
            ) == t
            &&& json::member(v, "description"@) is None ==> component::content(
                got.description,
            ).len() == 0
            &&& json::member(v, "favicon"@) == Some(JsonView::Text(t)) ==> got.favicon == Some(t)
            &&& json::member(v, "favicon"@) is None ==> got.favicon is None
            &&& json::member(v, "enforcesSecureChat"@) == flag ==> got.enforces_secure_chat
                == Some(b)
            &&& json::member(v, "previewsChat"@) == flag ==> got.previews_chat == Some(b)
            &&& json::member(v, "preventsChatReports"@) == flag ==> got.prevents_chat_reports
                == Some(b)
            &&& json::member(v, "isModded"@) == flag ==> got.is_modded == Some(b)
            &&& json::member(v, "forgeData"@) == Some(d) ==> got.forge_data == Some(d)
            &&& json::member(v, "modinfo"@) == Some(d) ==> got.modinfo == Some(d)
            &&& json::member(v, "players"@) is None ==> got.players is None
        }),
{
}

/// The modpack is read from either of its two members, the newer one first; `??` stands for nothing.
pub proof fn modpacks_are_read(
    v: JsonView,
    x: JsonView,
    name: Seq<char>,
    version: Seq<char>,
    readings: Seq<(Seq<char>, i64)>,
)
    requires
        json::member(v, "betterStatus"@) == Some(x) || (json::member(v, "betterStatus"@) is None
            && json::member(v, "better-status"@) == Some(x)),
        json::member(x, "name"@) == Some(JsonView::Text(name)),
        json::member(x, "version"@) == Some(JsonView::Text(version)),
    ensures
        ({
            let n = text::trimmed(name);
            let w = text::trimmed(version);
            let got = status_of(v, readings).modpack;
            &&& n != "??"@ && w != "??"@ && n.len() + w.len() > 0 ==> got == Some((n, w))
            &&& n == "??"@ && w == "??"@ ==> got is None
            &&& n == "??"@ && w != "??"@ && w.len() > 0 ==> got == Some((Seq::<char>::empty(), w))
            &&& n.len() == 0 && w.len() == 0 ==> got is None
        }),
{
}

/// The mods of a server are told by `forgeData` first, then by `modinfo`, then by the mere mark.
pub proof fn mods_are_told(s: StatusView, d: JsonView)
    ensures
        s.forge_data == Some(d) ==> mods_of(s) == Some(forge_mods(d)),
        s.forge_data is None && s.modinfo == Some(d) && json::member(d, "type"@) == Some(
            JsonView::Text("FML"@),
        ) ==> mods_of(s) is Some && mods_of(s)->0.loader is Forge && mods_of(s)->0.mod_count is Some,
        s.forge_data is None && s.modinfo is None && s.is_modded == Some(true) ==> mods_of(s) is Some
            && mods_of(s)->0.loader is Modded && mods_of(s)->0.mod_count is None,
        s.forge_data is None && s.modinfo is None && s.is_modded != Some(true) ==> mods_of(
            s,
        ) is None,
{
}

/// Mods that are listed in plain are read in their order, each with its name and its version.
pub proof fn plain_mods_are_read(list: Seq<JsonView>, name: Seq<char>, version: Seq<char>, i: int)
    requires
        forall|k: int|
            0 <= k < list.len() ==> json::text_of(#[trigger] json::member(list[k], name)) is Some,
        0 <= i < list.len(),
    ensures
        listed_mods(list, name, version).len() == list.len(),
        Some(listed_mods(list, name, version)[i].0) == json::text_of(json::member(list[i], name)),
        (json::text_of(json::member(list[i], version)) matches Some(t) ==> listed_mods(
            list,
            name,
            version,
        )[i].1 == t),
    decreases list.len(),
{
    let before = list.drop_last();
    assert forall|k: int| 0 <= k < before.len() implies json::text_of(
        #[trigger] json::member(before[k], name),
    ) is Some by {
        assert(before[k] == list[k]);
        assert(json::text_of(json::member(list[k], name)) is Some);
    }
    assert(json::text_of(json::member(list[list.len() - 1], name)) is Some);
    let earlier = listed_mods(before, name, version);
    if before.len() > 0 {
        let j = if i < before.len() {
            i
        } else {
            0
        };
        plain_mods_are_read(before, name, version, j);
        assert(earlier.len() == before.len());
        assert(before[j] == list[j]);
    } else {
        assert(earlier.len() == 0);
    }
    assert(list.last() == list[list.len() - 1]);
    let own = json::text_of(json::member(list.last(), name))->0;
    assert(listed_mods(list, name, version) == earlier.push(
        (own, text_or_empty(list.last(), version)),
    ));
}

/// A newer Forge server lists its mods in plain, else packed into one text; either way they are
/// counted, and what the server left out is told.
pub proof fn forge_mods_are_read(fd: JsonView, a: Seq<JsonView>, d: Seq<char>)
    ensures
        forge_mods(fd).loader is Forge,
        json::member(fd, "mods"@) == Some(JsonView::Array(a)) && a.len() > 0 ==> {
            &&& forge_mods(fd).mods == listed_mods(a, "modId"@, "modmarker"@)
            &&& forge_mods(fd).mod_count == Some(forge_mods(fd).mods.len())
            &&& json::member(fd, "truncated"@) == Some(JsonView::Bool(true)) ==> forge_mods(
                fd,
            ).truncated
            &&& json::member(fd, "truncated"@) is None ==> !forge_mods(fd).truncated
        },
        json::member(fd, "mods"@) is None && json::member(fd, "d"@) == Some(JsonView::Text(d)) ==> (
        forge::decoded(d) matches Some(m) ==> {
            &&& forge_mods(fd).mods == m.mods
            &&& forge_mods(fd).mod_count == Some(m.mods.len())
            &&& m.truncated ==> forge_mods(fd).truncated
            &&& json::member(fd, "channels"@) is None ==> forge_mods(fd).channel_count == Some(
                m.channels,
            )
        }),
        json::member(fd, "mods"@) is None && json::member(fd, "d"@) is None ==> forge_mods(
            fd,
        ).mod_count is None && forge_mods(fd).mods.len() == 0,
{
}

/// The icon stands behind the mark `base64,`, or is all of the text; white space in it does not
/// count.
pub proof fn icons_stand_behind_their_mark(before: Seq<char>, data: Seq<char>)
    requires
        !before.contains('b'),
    ensures
        favicon_text(before + "base64,"@ + data) == text::squeezed(data),
        !data.contains('b') ==> favicon_text(data) == text::squeezed(data),
{
    reveal_strlit("base64,");
    let pat = "base64,"@;
    assert forall|i: int| 0 <= i < before.len() implies (#[trigger] before[i]) != pat[0] by {
        assert(before.contains(before[i]));
    }
    text::texts_are_cut_at_the_first_place(before, pat, data);
    if !data.contains('b') {
        assert forall|i: int| 0 <= i < data.len() implies (#[trigger] data[i]) != pat[0] by {
            assert(data.contains(data[i]));
        }
        text::texts_without_the_pattern_stay_whole(data, pat);
    }
}

/// What a status holds is what its fields say.
pub proof fn statuses_hold_their_fields(s: StatusResponse, i: int)
    ensures
        s.model().version.name == text::opt_view(s.version.name),
        s.model().version.protocol == s.version.protocol,
        s.model().version.supported_versions == s.version.supported_versions@,
        s.model().description == s.description.model(),
        s.model().enforces_secure_chat == s.enforces_secure_chat,
        s.model().previews_chat == s.previews_chat,
        s.model().prevents_chat_reports == s.prevents_chat_reports,
        s.model().is_modded == s.is_modded,
        (s.players matches Some(p) ==> s.model().players is Some && (0 <= i < p.sample@.len()
            ==> s.model().players->0.sample[i] == (p.sample@[i].name@, p.sample@[i].id@))),
        (s.modpack matches Some(m) ==> s.model().modpack == Some((m.name@, m.version@))),
        s.modpack is None ==> s.model().modpack is None,
{
}

} // verus!
