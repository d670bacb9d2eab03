//! The JSON look-up the fleet logic needs, made by `serde_json`: what a
//! JSON document holds at a JSON pointer, and that value's compact text.
use vstd::prelude::*;

use crate::fleet::opt_text;

verus! {

/// What a JSON document holds at a JSON pointer, as far as the fleet logic
/// reads it.
#[derive(Debug)]
pub enum JsonAt {
    /// The text is not JSON, or nothing is at the pointer.
    Missing,
    /// A JSON string.
    Str(String),
    /// A JSON number that fits an `i64`.
    Int(i64),
    /// Any other JSON value.
    Other,
}

/// [`JsonAt`] with a string taken by its characters.
pub enum JsonAtView {
    /// The text is not JSON, or nothing is at the pointer.
    Missing,
    /// A JSON string.
    Str(Seq<char>),
    /// A JSON number that fits an `i64`.
    Int(i64),
    /// Any other JSON value.
    Other,
}

impl View for JsonAt {
    type V = JsonAtView;

    open spec fn view(&self) -> JsonAtView {
        match self {
            JsonAt::Missing => JsonAtView::Missing,
            JsonAt::Str(s) => JsonAtView::Str(s@),
            JsonAt::Int(i) => JsonAtView::Int(*i),
            JsonAt::Other => JsonAtView::Other,
        }
    }
}

/// What `serde_json` finds at JSON pointer `pointer` in the JSON document
/// `text`, and the compact JSON text of the value found (`None` when
/// nothing is found).
pub uninterp spec fn json_at(text: Seq<char>, pointer: Seq<char>) -> (JsonAtView, Option<Seq<char>>);

/// The string at `pointer` in `text`, if the value there is a string.
pub open spec fn json_str_at(text: Seq<char>, pointer: Seq<char>) -> Option<Seq<char>> {
    match json_at(text, pointer).0 {
        JsonAtView::Str(s) => Some(s),
        _ => None,
    }
}

/// The integer at `pointer` in `text`, if the value there is a number that
/// fits an `i64`.
pub open spec fn json_i64_at(text: Seq<char>, pointer: Seq<char>) -> Option<i64> {
    match json_at(text, pointer).0 {
        JsonAtView::Int(i) => Some(i),
        _ => None,
    }
}

/// Parses `text` with `serde_json::from_str::<serde_json::Value>`, follows
/// `pointer` with `Value::pointer`, and reports the value found (a string,
/// a number that `Number::as_i64` reads, or another value) with its compact
/// text from `Value::to_string`. The contract claims only that the answer
/// is a function of the two strings (named [`json_at`]); what JSON parsing
/// and printing yield is not restated.
#[verifier::external_body]
pub(crate) fn find_json(text: &str, pointer: &str) -> (r: (JsonAt, Option<String>))
    ensures
        (r.0@, opt_text(r.1)) == json_at(text@, pointer@),
{
    let found = match serde_json::from_str::<serde_json::Value>(text) {
        Ok(value) => value.pointer(pointer).cloned(),
        Err(_) => None,
    };
    let value = match found {
        Some(value) => value,
        None => return (JsonAt::Missing, None),
    };
    let compact = value.to_string();
    match value {
        serde_json::Value::String(s) => (JsonAt::Str(s), Some(compact)),
        serde_json::Value::Number(n) => (n.as_i64().map_or(JsonAt::Other, JsonAt::Int), Some(compact)),
        _ => (JsonAt::Other, Some(compact)),
    }
}

/// The whole document `text` as compact JSON; text that is not JSON shows
/// as `null`.
pub open spec fn compact_text(text: Seq<char>) -> Seq<char> {
    match json_at(text, Seq::empty()).1 {
        Some(c) => c,
        None => "null"@,
    }
}

/// The payload cell of the device page: the payload as compact JSON, or
/// `null` for text that is not JSON.
pub fn compact_json(text: &str) -> (r: String)
    ensures
        r@ == compact_text(text@),
{
    let whole = "";
    proof {
        reveal_strlit("");
    }
    assert(whole@ =~= Seq::<char>::empty());
    match find_json(text, whole).1 {
        Some(c) => c,
        None => "null".to_owned(),
    }
}

/// The string at `pointer` in `text`, if the value there is a string.
pub fn find_json_str(text: &str, pointer: &str) -> (r: Option<String>)
    ensures
        r matches Some(v) ==> json_str_at(text@, pointer@) == Some(v@),
        r is None ==> json_str_at(text@, pointer@) is None,
{
    match find_json(text, pointer).0 {
        JsonAt::Str(s) => Some(s),
        _ => None,
    }
}

/// The integer at `pointer` in `text`, if the value there is a number that
/// fits an `i64`.
pub fn find_json_i64(text: &str, pointer: &str) -> (r: Option<i64>)
    ensures
        r == json_i64_at(text@, pointer@),
{
    match find_json(text, pointer).0 {
        JsonAt::Int(i) => Some(i),
        _ => None,
    }
}

} // verus!
