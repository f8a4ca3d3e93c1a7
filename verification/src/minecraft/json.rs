//! JSON values as plain data, and their way in from `serde_json`.

use vstd::prelude::*;
use crate::minecraft::outside;
use crate::minecraft::outside::Node;
use crate::minecraft::text;

verus! {

/// A JSON value.
#[derive(Debug)]
pub enum Json {
    Null,
    Bool(bool),
    /// A number: its value where that is a 64-bit integer, and its text.
    Number(Option<i64>, String),
    Text(String),
    Array(Vec<Json>),
    /// The members of an object, in the order of the parser.
    Object(Vec<(String, Json)>),
}

/// What a [`Json`] holds.
#[verifier::ext_equal]
pub enum JsonView {
    Null,
    Bool(bool),
    Number(Option<i64>, Seq<char>),
    Text(Seq<char>),
    Array(Seq<JsonView>),
    Object(Seq<(Seq<char>, JsonView)>),
}

impl Json {
    /// What the value holds.
    pub open spec fn model(self) -> JsonView
        decreases self,
    {
        match self {
            Json::Null => JsonView::Null,
            Json::Bool(b) => JsonView::Bool(b),
            Json::Number(n, t) => JsonView::Number(n, t@),
            Json::Text(s) => JsonView::Text(s@),
            Json::Array(a) => JsonView::Array(
                Seq::new(
                    a@.len(),
                    |i: int|
                        if 0 <= i < a@.len() {
                            a@[i].model()
                        } else {
                            arbitrary()
                        },
                ),
            ),
            Json::Object(m) => JsonView::Object(
                Seq::new(
                    m@.len(),
                    |i: int|
                        if 0 <= i < m@.len() {
                            (m@[i].0@, m@[i].1.model())
                        } else {
                            arbitrary()
                        },
                ),
            ),
        }
    }
}

/// What each value of a list holds.
pub open spec fn models(list: Seq<Json>) -> Seq<JsonView> {
    Seq::new(list.len(), |i: int| list[i].model())
}

/// What each member of an object holds.
pub open spec fn member_models(list: Seq<(String, Json)>) -> Seq<(Seq<char>, JsonView)> {
    Seq::new(list.len(), |i: int| (list[i].0@, list[i].1.model()))
}

/// The position of the first member with this name; the number of members where there is none.
pub open spec fn find_index(members: Seq<(Seq<char>, JsonView)>, key: Seq<char>) -> nat
    decreases members.len(),
{
    if members.len() == 0 || members[0].0 == key {
        0
    } else {
        1 + find_index(members.drop_first(), key)
    }
}

/// The first member with this name.
pub open spec fn find(members: Seq<(Seq<char>, JsonView)>, key: Seq<char>) -> Option<JsonView> {
    let i = find_index(members, key) as int;
    if i < members.len() {
        Some(members[i].1)
    } else {
        None
    }
}

/// The member of an object with this name; other values have none.
pub open spec fn member(v: JsonView, key: Seq<char>) -> Option<JsonView> {
    match v {
        JsonView::Object(m) => find(m, key),
        _ => None,
    }
}

/// The text of a value that is one.
pub open spec fn text_of(v: Option<JsonView>) -> Option<Seq<char>> {
    match v {
        Some(JsonView::Text(s)) => Some(s),
        _ => None,
    }
}

/// The items of a value that is an array.
pub open spec fn items_of(v: Option<JsonView>) -> Option<Seq<JsonView>> {
    match v {
        Some(JsonView::Array(a)) => Some(a),
        _ => None,
    }
}

/// A truth value, also one written as the text `true` or `false`.
pub open spec fn truth_of(v: Option<JsonView>) -> Option<bool> {
    match v {
        Some(JsonView::Bool(b)) => Some(b),
        Some(JsonView::Text(s)) => if s == "true"@ {
            Some(true)
        } else if s == "false"@ {
            Some(false)
        } else {
            None
        },
        _ => None,
    }
}

/// What an optional value holds.
pub open spec fn opt_model(v: Option<&Json>) -> Option<JsonView> {
    match v {
        Some(j) => Some(j.model()),
        None => None,
    }
}

impl Json {
    /// The member with this name.
    pub fn get<'a>(&'a self, key: &str) -> (r: Option<&'a Json>)
        ensures
            opt_model(r) == member(self.model(), key@),
    {
        match self {
            Json::Object(m) => {
                let ghost all = member_models(m@);
                assert(self.model()->Object_0 =~= all);
                assert(all.skip(0) =~= all);
                for i in 0..m.len()
                    invariant
                        all == member_models(m@),
                        member(self.model(), key@) == find(all, key@),
                        find_index(all, key@) == i + find_index(all.skip(i as int), key@),
                {
                    assert(all.skip(i as int)[0] == all[i as int]);
                    assert(all.skip(i as int).drop_first() =~= all.skip(i + 1));
                    if text::same(m[i].0.as_str(), key) {
                        return Some(&m[i].1);
                    }
                }
                assert(all.skip(m@.len() as int).len() == 0);
                None
            },
            _ => None,
        }
    }

    /// The text, where the value is one.
    pub fn as_str<'a>(&'a self) -> (r: Option<&'a str>)
        ensures
            match r {
                Some(s) => text_of(Some(self.model())) == Some(s@),
                None => text_of(Some(self.model())) is None,
            },
    {
        match self {
            Json::Text(s) => Some(s.as_str()),
            _ => None,
        }
    }

    /// The items, where the value is an array.
    pub fn as_array<'a>(&'a self) -> (r: Option<&'a Vec<Json>>)
        ensures
            match r {
                Some(a) => items_of(Some(self.model())) == Some(models(a@)),
                None => items_of(Some(self.model())) is None,
            },
    {
        match self {
            Json::Array(a) => {
                assert(self.model()->Array_0 =~= models(a@));
                Some(a)
            },
            _ => None,
        }
    }

    /// The truth value, also where it is written as a text.
    pub fn as_bool_lenient(&self) -> (r: Option<bool>)
        ensures
            r == truth_of(Some(self.model())),
    {
        match self {
            Json::Bool(b) => Some(*b),
            Json::Text(s) => {
                if text::same(s.as_str(), "true") {
                    Some(true)
                } else if text::same(s.as_str(), "false") {
                    Some(false)
                } else {
                    None
                }
            },
            _ => None,
        }
    }

    /// The text of the member with this name.
    pub fn text_member(&self, key: &str) -> (r: Option<String>)
        ensures
            text::opt_view(r) == text_of(member(self.model(), key@)),
    {
        match self.get(key) {
            Some(j) => match j.as_str() {
                Some(s) => Some(s.to_owned()),
                None => None,
            },
            None => None,
        }
    }

    /// The truth value of the member with this name, also where it is written as a text.
    pub fn flag_member(&self, key: &str) -> (r: Option<bool>)
        ensures
            r == truth_of(member(self.model(), key@)),
    {
        match self.get(key) {
            Some(j) => j.as_bool_lenient(),
            None => None,
        }
    }

    /// A copy of the value.
    pub fn duplicate(&self) -> (r: Json)
        ensures
            r.model() == self.model(),
        decreases self,
    {
        match self {
            Json::Null => Json::Null,
            Json::Bool(b) => Json::Bool(*b),
            Json::Number(n, t) => Json::Number(*n, t.clone()),
            Json::Text(s) => Json::Text(s.clone()),
            Json::Array(a) => {
                let mut out: Vec<Json> = Vec::new();
                for i in 0..a.len()
                    invariant
                        *self == Json::Array(*a),
                        models(out@) =~= models(a@).take(i as int),
                {
                    let ghost before = models(out@);
                    assert(decreases_to!(*self => self->Array_0@[i as int]));
                    out.push(a[i].duplicate());
                    assert(models(out@) =~= before.push(models(a@)[i as int]));
                }
                let r = Json::Array(out);
                assert(r.model()->Array_0 =~= models(out@));
                assert(self.model()->Array_0 =~= models(a@));
                assert(models(a@).take(a@.len() as int) =~= models(a@));
                r
            },
            Json::Object(m) => {
                let mut out: Vec<(String, Json)> = Vec::new();
                for i in 0..m.len()
                    invariant
                        *self == Json::Object(*m),
                        member_models(out@) =~= member_models(m@).take(i as int),
                {
                    let ghost before = member_models(out@);
                    assert(decreases_to!(*self => self->Object_0@[i as int].1));
                    out.push((m[i].0.clone(), m[i].1.duplicate()));
                    assert(member_models(out@) =~= before.push(member_models(m@)[i as int]));
                }
                let r = Json::Object(out);
                assert(r.model()->Object_0 =~= member_models(out@));
                assert(self.model()->Object_0 =~= member_models(m@));
                assert(member_models(m@).take(m@.len() as int) =~= member_models(m@));
                r
            },
        }
    }
}

/// A `serde_json` value as plain data.
fn from_value(v: serde_json::Value) -> (r: Json)
    ensures
        r.model() == outside::value_view(v),
    decreases outside::value_view(v),
{
    let ghost whole = outside::value_view(v);
    match outside::open_value(v) {
        Node::Null => Json::Null,
        Node::Bool(b) => Json::Bool(b),
        Node::Number(n, t) => Json::Number(n, t),
        Node::Text(s) => Json::Text(s),
        Node::Array(list) => {
            let mut out: Vec<Json> = Vec::new();
            let ghost views = outside::value_views(list@);
            for x in it: list
                invariant
                    it.seq() == list@,
                    whole == outside::value_view(v),
                    whole == JsonView::Array(views),
                    views == outside::value_views(list@),
                    models(out@) =~= views.take(it.index() as int),
            {
                let ghost k = it.index() as int;
                assert(outside::value_view(x) == views[k]);
                assert(decreases_to!(whole => whole->Array_0[k]));
                let ghost before = models(out@);
                out.push(from_value(x));
                assert(models(out@) =~= before.push(views[k]));
            }
            assert(views.take(views.len() as int) =~= views);
            let r = Json::Array(out);
            assert(r.model()->Array_0 =~= models(out@));
            r
        },
        Node::Object(list) => {
            let mut out: Vec<(String, Json)> = Vec::new();
            let ghost views = outside::member_views(list@);
            for x in it: list
                invariant
                    it.seq() == list@,
                    whole == outside::value_view(v),
                    whole == JsonView::Object(views),
                    views == outside::member_views(list@),
                    member_models(out@) =~= views.take(it.index() as int),
            {
                let ghost k = it.index() as int;
                let (key, y) = x;
                assert((key@, outside::value_view(y)) == views[k]);
                assert(decreases_to!(whole => whole->Object_0[k].1));
                let ghost before = member_models(out@);
                out.push((key, from_value(y)));
                assert(member_models(out@) =~= before.push(views[k]));
            }
            assert(views.take(views.len() as int) =~= views);
            let r = Json::Object(out);
            assert(r.model()->Object_0 =~= member_models(out@));
            r
        },
    }
}

/// The JSON value at the start of a text, or the parser's complaint.
pub fn parse(raw: &str) -> (r: Result<Json, String>)
    ensures
        match r {
            Ok(j) => outside::json_of(raw@) == Ok::<JsonView, Seq<char>>(j.model()),
            Err(e) => outside::json_of(raw@) == Err::<JsonView, Seq<char>>(e@),
        },
{
    match outside::parse_value(raw) {
        Ok(v) => Ok(from_value(v)),
        Err(e) => Err(e),
    }
}

impl Clone for Json {
    fn clone(&self) -> (r: Self)
        ensures
            r.model() == self.model(),
    {
        self.duplicate()
    }
}

/// Every member of an object whose names differ is found under its name, and nothing under another.
pub proof fn members_are_found(m: Seq<(Seq<char>, JsonView)>, i: int)
    requires
        0 <= i < m.len(),
        forall|k: int| 0 <= k < i ==> (#[trigger] m[k]).0 != m[i].0,
    ensures
        member(JsonView::Object(m), m[i].0) == Some(m[i].1),
    decreases m.len(),
{
    lemma_found(m, m[i].0, i);
}

proof fn lemma_found(m: Seq<(Seq<char>, JsonView)>, key: Seq<char>, i: int)
    requires
        0 <= i < m.len(),
        m[i].0 == key,
        forall|k: int| 0 <= k < i ==> (#[trigger] m[k]).0 != key,
    ensures
        find_index(m, key) == i,
    decreases m.len(),
{
    if i > 0 {
        let rest = m.drop_first();
        assert(m[0].0 != key);
        assert forall|k: int| 0 <= k < i - 1 implies (#[trigger] rest[k]).0 != key by {
            assert(rest[k] == m[k + 1]);
        }
        lemma_found(rest, key, i - 1);
    }
}

/// What is not there is not found.
pub proof fn missing_members_are_not_found(m: Seq<(Seq<char>, JsonView)>, key: Seq<char>)
    requires
        forall|k: int| 0 <= k < m.len() ==> (#[trigger] m[k]).0 != key,
    ensures
        member(JsonView::Object(m), key) is None,
    decreases m.len(),
{
    lemma_missing(m, key);
}

proof fn lemma_missing(m: Seq<(Seq<char>, JsonView)>, key: Seq<char>)
    requires
        forall|k: int| 0 <= k < m.len() ==> (#[trigger] m[k]).0 != key,
    ensures
        find_index(m, key) == m.len(),
    decreases m.len(),
{
    if m.len() > 0 {
        let rest = m.drop_first();
        assert(m[0].0 != key);
        assert forall|k: int| 0 <= k < rest.len() implies (#[trigger] rest[k]).0 != key by {
            assert(rest[k] == m[k + 1]);
        }
        lemma_missing(rest, key);
    }
}

/// A truth value may be written as such or as a text; anything else is none.
pub proof fn truth_is_read_leniently(b: bool)
    ensures
        truth_of(Some(JsonView::Bool(b))) == Some(b),
        truth_of(Some(JsonView::Text("true"@))) == Some(true),
        truth_of(Some(JsonView::Text("false"@))) == Some(false),
        truth_of(None) is None,
        truth_of(Some(JsonView::Null)) is None,
{
    reveal_strlit("true");
    reveal_strlit("false");
    assert("true"@[0] != "false"@[0]);
}

} // verus!
