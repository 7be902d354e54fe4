//! What the library reads and writes as JSON.
use crate::text::views;
use vstd::prelude::*;

verus! {

/// The JSON text is an object without members.
pub uninterp spec fn json_is_empty_object(text: Seq<char>) -> bool;

/// The member of a JSON text under a key: none, one that is no string, or a
/// string.
pub uninterp spec fn json_member(text: Seq<char>, key: Seq<char>) -> Option<Option<Seq<char>>>;

/// The JSON text written without white space.
pub uninterp spec fn json_compact(text: Seq<char>) -> Seq<char>;

/// The JSON text written over several lines.
pub uninterp spec fn json_pretty(text: Seq<char>) -> Seq<char>;

/// The strings of a JSON array of strings.
pub uninterp spec fn json_strings(text: Seq<char>) -> Seq<Seq<char>>;

/// The JSON array of some strings.
pub uninterp spec fn json_array(strings: Seq<Seq<char>>) -> Seq<char>;

/// The JSON string of a text.
pub uninterp spec fn json_string(text: Seq<char>) -> Seq<char>;

/// Whether a JSON text is an object without members: `serde_json::from_str`
/// reads it, a text that is no JSON as null, `serde_json::Value::as_object`
/// gives the object and `serde_json::Map::is_empty` says whether it has members.
#[verifier::external_body]
pub(crate) fn is_empty_object(text: &str) -> (r: bool)
    ensures
        r == json_is_empty_object(text@),
{
    serde_json::from_str::<serde_json::Value>(text).unwrap_or_default().as_object().map_or(false, |o| o.is_empty())
}

/// What an optional member holds.
pub open spec fn member_model(m: Option<Option<String>>) -> Option<Option<Seq<char>>> {
    match m {
        Some(Some(s)) => Some(Some(s@)),
        Some(None) => Some(None),
        None => None,
    }
}

/// The member of a JSON text under a key: `serde_json::from_str` reads the text,
/// one that is no JSON as null, `serde_json::Value::get` finds the member, and
/// `serde_json::Value::as_str` gives its string where it is one.
#[verifier::external_body]
pub(crate) fn member(text: &str, key: &str) -> (r: Option<Option<String>>)
    ensures
        member_model(r) == json_member(text@, key@),
{
    let value = serde_json::from_str::<serde_json::Value>(text).unwrap_or_default();
    value.get(key).map(|v| v.as_str().map(|s| s.to_string()))
}

/// A JSON text without white space: `serde_json::from_str` reads it, a text that
/// is no JSON as null, and `serde_json::to_string` writes it.
#[verifier::external_body]
pub(crate) fn compact(text: &str) -> (r: String)
    ensures
        r@ == json_compact(text@),
{
    let value = serde_json::from_str::<serde_json::Value>(text).unwrap_or_default();
    serde_json::to_string(&value).unwrap_or_default()
}

/// A JSON text over several lines: `serde_json::from_str` reads it, a text that
/// is no JSON as null, and `serde_json::to_string_pretty` writes it.
#[verifier::external_body]
pub(crate) fn pretty(text: &str) -> (r: String)
    ensures
        r@ == json_pretty(text@),
{
    let value = serde_json::from_str::<serde_json::Value>(text).unwrap_or_default();
    serde_json::to_string_pretty(&value).unwrap_or_default()
}

/// The strings of a JSON array of strings: `serde_json::from_str` into a list of
/// strings; none where the text is something else.
#[verifier::external_body]
pub(crate) fn strings(text: &str) -> (r: Vec<String>)
    ensures
        views(r@) == json_strings(text@),
{
    serde_json::from_str::<Vec<String>>(text).unwrap_or_default()
}

/// The JSON array of some strings: `serde_json::to_string`. Reading it gives the
/// strings back.
#[verifier::external_body]
pub(crate) fn array(list: &Vec<String>) -> (r: String)
    ensures
        r@ == json_array(views(list@)),
        json_strings(r@) == views(list@),
{
    serde_json::to_string(list).unwrap_or_else(|_| "[]".to_string())
}

/// The JSON string of a text: `serde_json::to_string`.
#[verifier::external_body]
pub(crate) fn string(text: &str) -> (r: String)
    ensures
        r@ == json_string(text@),
{
    serde_json::to_string(text).unwrap_or_default()
}

} // verus!
