//! Functions of the standard library and of other crates that the verified code calls.
//!
//! Every item here states what the called function does; none of these statements is proved.

use vstd::prelude::*;
use vstd::utf8::{decode_utf8, is_scalar, valid_utf8};
use crate::minecraft::json::JsonView;

verus! {

/// `String::push` appends one character.
pub assume_specification[ String::push ](s: &mut String, c: char)
    ensures
        final(s)@ == old(s)@.push(c),
;

/// The error of `String::from_utf8`.
#[verifier::external_type_specification]
#[verifier::external_body]
pub struct ExFromUtf8Error(std::string::FromUtf8Error);

/// `String::from_utf8` takes exactly the byte sequences that are UTF-8, and gives the characters
/// that they encode.
pub assume_specification[ String::from_utf8 ](v: Vec<u8>) -> (r: Result<
    String,
    std::string::FromUtf8Error,
>)
    ensures
        r is Ok <==> valid_utf8(v@),
        r matches Ok(s) ==> s@ == decode_utf8(v@),
;

/// The text that bytes stand for which are not UTF-8, with replacement characters.
pub uninterp spec fn utf8_repaired(b: Seq<u8>) -> Seq<char>;

/// The text that bytes stand for.
pub open spec fn lossy(b: Seq<u8>) -> Seq<char> {
    if valid_utf8(b) {
        decode_utf8(b)
    } else {
        utf8_repaired(b)
    }
}

/// `String::from_utf8_lossy` gives the characters that UTF-8 bytes encode. Of other bytes only this
/// is said, that the text depends on them alone.
#[verifier::external_body]
pub(crate) fn lossy_text(b: &[u8]) -> (r: String)
    ensures
        r@ == (if valid_utf8(b@) {
            decode_utf8(b@)
        } else {
            utf8_repaired(b@)
        }),
{
    String::from_utf8_lossy(b).into_owned()
}

/// `char::from_u32` gives the character with a code point, where there is one.
pub assume_specification[ char::from_u32 ](i: u32) -> (r: Option<char>)
    ensures
        r == (if is_scalar(i) {
            Some(i as char)
        } else {
            None::<char>
        }),
;

// ---- serde_json ----

/// A JSON value of `serde_json`.
#[verifier::external_type_specification]
#[verifier::external_body]
pub struct ExValue(serde_json::Value);

/// What a `serde_json` value holds.
pub uninterp spec fn value_view(v: serde_json::Value) -> JsonView;

/// What each of several values holds.
pub open spec fn value_views(list: Seq<serde_json::Value>) -> Seq<JsonView> {
    Seq::new(list.len(), |i: int| value_view(list[i]))
}

/// What each of several members holds.
pub open spec fn member_views(list: Seq<(String, serde_json::Value)>) -> Seq<
    (Seq<char>, JsonView),
> {
    Seq::new(list.len(), |i: int| (list[i].0@, value_view(list[i].1)))
}

/// One level of a JSON value.
pub enum Node {
    Null,
    Bool(bool),
    Number(Option<i64>, String),
    Text(String),
    Array(Vec<serde_json::Value>),
    Object(Vec<(String, serde_json::Value)>),
}

/// Takes a `serde_json::Value` apart by its variants. A number becomes what `Number::as_i64` and
/// its `Display` say of it; the members of an object come in the order of `Map::into_iter`.
#[verifier::external_body]
pub(crate) fn open_value(v: serde_json::Value) -> (r: Node)
    ensures
        value_view(v) == (match r {
            Node::Null => JsonView::Null,
            Node::Bool(b) => JsonView::Bool(b),
            Node::Number(n, t) => JsonView::Number(n, t@),
            Node::Text(s) => JsonView::Text(s@),
            Node::Array(a) => JsonView::Array(value_views(a@)),
            Node::Object(m) => JsonView::Object(member_views(m@)),
        }),
{
    match v {
        serde_json::Value::Null => Node::Null,
        serde_json::Value::Bool(b) => Node::Bool(b),
        serde_json::Value::Number(n) => Node::Number(n.as_i64(), n.to_string()),
        serde_json::Value::String(s) => Node::Text(s),
        serde_json::Value::Array(a) => Node::Array(a),
        serde_json::Value::Object(m) => Node::Object(m.into_iter().collect()),
    }
}

/// What reading a JSON value from the start of a text gives: the value, or the complaint.
pub uninterp spec fn json_of(raw: Seq<char>) -> Result<JsonView, Seq<char>>;

/// `Value::deserialize` on `serde_json::Deserializer::from_str`: reads one value from the start of
/// the text and leaves what follows it unread. The outcome depends on the text alone; an error is
/// given by its `Display` text.
#[verifier::external_body]
pub(crate) fn parse_value(raw: &str) -> (r: Result<serde_json::Value, String>)
    ensures
        match r {
            Ok(v) => json_of(raw@) == Ok::<JsonView, Seq<char>>(value_view(v)),
            Err(e) => json_of(raw@) == Err::<JsonView, Seq<char>>(e@),
        },
{
    let mut de = serde_json::Deserializer::from_str(raw);
    serde::Deserialize::deserialize(&mut de).map_err(|e: serde_json::Error| e.to_string())
}

// ---- base64 ----

/// The bytes that a text in the standard Base64 alphabet encodes, or none where it does not.
pub uninterp spec fn base64_of(input: Seq<u8>) -> Option<Seq<u8>>;

/// `STANDARD.decode` of the `base64` crate. The outcome depends on the input alone; what is wrong
/// with an input that cannot be decoded is not kept.
#[verifier::external_body]
pub(crate) fn decode_base64(input: &[u8]) -> (r: Option<Vec<u8>>)
    ensures
        base64_of(input@) == (match r {
            Some(b) => Some(b@),
            None => None,
        }),
{
    base64::Engine::decode(&base64::engine::general_purpose::STANDARD, input).ok()
}

// ---- ar-reshaper ----

/// A vowel sign or other mark that the reshaper takes out.
pub open spec fn is_harakat(c: char) -> bool {
    let n = c as u32;
    ||| 0x0610 <= n <= 0x061A
    ||| 0x064B <= n <= 0x065F
    ||| n == 0x0670
    ||| 0x06D6 <= n <= 0x06DC
    ||| 0x06DF <= n <= 0x06E8
    ||| 0x06EA <= n <= 0x06ED
    ||| 0x08D4 <= n <= 0x08FF
}

/// The letters that are left when the marks are taken out.
pub open spec fn letters(t: Seq<char>) -> Seq<char> {
    t.filter(|c: char| !is_harakat(c))
}

/// How many joiners the text holds; the reshaper takes them out too.
pub open spec fn joiners(t: Seq<char>) -> nat {
    t.filter(|c: char| c == '\u{200D}').len()
}

/// A sequence of letters that the reshaper may replace by one ends in front of position `i`.
pub open spec fn ligature_ends(t: Seq<char>, i: int) -> bool {
    ||| {
        &&& 2 <= i <= t.len()
        &&& t[i - 2] == '\u{0644}'
        &&& (t[i - 1] == '\u{0622}' || t[i - 1] == '\u{0623}' || t[i - 1] == '\u{0625}' || t[i - 1]
            == '\u{0627}')
    }
    ||| {
        &&& 4 <= i <= t.len()
        &&& t[i - 4] == '\u{0627}'
        &&& t[i - 3] == '\u{0644}'
        &&& t[i - 2] == '\u{0644}'
        &&& t[i - 1] == '\u{0647}'
    }
}

/// The reshaper, in version 1.5.0, takes the text: it looks each ligature up at its place among all
/// letters, also when it has taken joiners out, so every ligature must end early enough.
pub open spec fn shapeable(t: Seq<char>) -> bool {
    forall|i: int|
        0 <= i <= letters(t).len() && #[trigger] ligature_ends(letters(t), i) ==> i + joiners(t)
            <= letters(t).len()
}

/// The text in joined forms.
pub uninterp spec fn reshaped(t: Seq<char>) -> Seq<char>;

/// `ArabicReshaper::reshape` with the default settings. The result depends on the text alone. It
/// has at most one character for each character of the text.
#[verifier::external_body]
pub(crate) fn reshape(t: &str) -> (r: String)
    requires
        shapeable(t@),
    ensures
        r@ == reshaped(t@),
        r@.len() <= t@.len(),
{
    ar_reshaper::ArabicReshaper::default().reshape(t)
}

// ---- unicode-bidi ----

/// The runs of the first paragraph of a text, in the order in which they are seen from left to
/// right: where each starts and ends, in bytes, and whether it reads from right to left. None where
/// there is no paragraph.
pub uninterp spec fn visual_runs_of(t: Seq<char>) -> Option<Seq<(nat, nat, bool)>>;

/// How many bytes the runs cover.
pub open spec fn covered(runs: Seq<(nat, nat, bool)>) -> int
    decreases runs.len(),
{
    if runs.len() == 0 {
        0
    } else {
        covered(runs.drop_last()) + (runs.last().1 - runs.last().0)
    }
}

/// The runs as numbers.
pub open spec fn run_views(runs: Seq<(usize, usize, bool)>) -> Seq<(nat, nat, bool)> {
    Seq::new(runs.len(), |i: int| (runs[i].0 as nat, runs[i].1 as nat, runs[i].2))
}

/// `BidiInfo::new` without a given level, and `visual_runs` of its first paragraph. The result
/// depends on the text alone. No run ends before it starts, and together they cover no more bytes
/// than the text has.
#[verifier::external_body]
pub(crate) fn visual_runs(t: &str) -> (r: Option<Vec<(usize, usize, bool)>>)
    ensures
        visual_runs_of(t@) == (match r {
            Some(runs) => Some(run_views(runs@)),
            None => None,
        }),
        r matches Some(runs) ==> {
            &&& forall|i: int| 0 <= i < runs@.len() ==> (#[trigger] runs@[i]).0 <= runs@[i].1
            &&& covered(run_views(runs@)) <= vstd::utf8::encode_utf8(t@).len()
        },
{
    let info = unicode_bidi::BidiInfo::new(t, None);
    let para = info.paragraphs.first()?;
    let (levels, runs) = info.visual_runs(para, para.range.clone());
    Some(runs.into_iter().map(|r| (r.start, r.end, levels[r.start].is_rtl())).collect())
}

// ---- image ----

/// What decoding an image file gives: width, height, and at least four bytes for each pixel, row by
/// row.
pub uninterp spec fn image_of(file: Seq<u8>) -> Option<(nat, nat, Seq<u8>)>;

/// `image::load_from_memory` and `to_rgba8`. The outcome depends on the bytes alone. The pixels come
/// row by row, each as red, green, blue and opacity, and none is missing.
#[verifier::external_body]
pub(crate) fn decode_image(file: &[u8]) -> (r: Option<(u32, u32, Vec<u8>)>)
    ensures
        image_of(file@) == (match r {
            Some((w, h, raw)) => Some((w as nat, h as nat, raw@)),
            None => None,
        }),
        r matches Some((w, h, raw)) ==> 4 * (w * h) <= raw@.len(),
{
    let img = image::load_from_memory(file).ok()?.to_rgba8();
    Some((img.width(), img.height(), img.into_raw()))
}

/// The PNG file of a picture, or the encoder's complaint.
pub uninterp spec fn png_of(raw: Seq<u8>, w: nat, h: nat) -> Result<Seq<u8>, Seq<char>>;

/// `PngEncoder::write_image` for pixels of red, green, blue and opacity, of which none may be
/// missing or left over. The outcome depends on the arguments alone; an error is given by its
/// `Display` text.
#[verifier::external_body]
pub(crate) fn write_png(raw: &[u8], w: u32, h: u32) -> (r: Result<Vec<u8>, String>)
    requires
        raw@.len() == 4 * (w * h),
    ensures
        png_of(raw@, w as nat, h as nat) == (match r {
            Ok(b) => Ok::<Seq<u8>, Seq<char>>(b@),
            Err(e) => Err(e@),
        }),
{
    let mut out = Vec::new();
    let enc = image::codecs::png::PngEncoder::new(&mut out);
    image::ImageEncoder::write_image(enc, raw, w, h, image::ExtendedColorType::Rgba8)
        .map_err(|e| e.to_string())?;
    Ok(out)
}

} // verus!
