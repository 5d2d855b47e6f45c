//! Reading JSON.
//!
//! A JSON value inside another one is handed on as JSON text.

use crate::tags::{keys, Pair, TagMap};
use serde_json::Value;
use std::collections::BTreeMap;
use vstd::prelude::*;

verus! {

/// Whether a text is a JSON value.
pub uninterp spec fn json_is_valid(text: Seq<char>) -> bool;

/// The members of the JSON object that a text is: their names in ascending order, and their values as
/// JSON texts. Nothing where it is no object.
pub uninterp spec fn json_members(text: Seq<char>) -> Option<Seq<Pair>>;

/// The elements of the JSON array that a text is, as JSON texts. Nothing where it is no array.
pub uninterp spec fn json_elements(text: Seq<char>) -> Option<Seq<Seq<char>>>;

/// The JSON string that a text is. Nothing where it is no string.
pub uninterp spec fn json_string(text: Seq<char>) -> Option<Seq<char>>;

/// The members of the JSON object that a text is: their names in ascending order, and their values,
/// all of which are strings. Nothing where it is no such object.
pub uninterp spec fn json_texts(text: Seq<char>) -> Option<Seq<Pair>>;

/// Calls `serde_json::from_str` for any value, and tells whether it succeeds.
#[verifier::external_body]
pub(crate) fn is_json(text: &str) -> (r: bool)
    ensures
        r == json_is_valid(text@),
{
    serde_json::from_str::<Value>(text).is_ok()
}

/// Calls `serde_json::from_str` for a map of values. No name stands there twice.
#[verifier::external_body]
pub(crate) fn read_members(text: &str) -> (r: Option<Vec<(String, String)>>)
    ensures
        r.deep_view() == json_members(text@),
        r matches Some(v) ==> keys(v.deep_view()).no_duplicates(),
{
    let map = serde_json::from_str::<BTreeMap<String, Value>>(text).ok()?;
    Some(map.into_iter().map(|(k, v)| (k, v.to_string())).collect())
}

/// Calls `serde_json::from_str` for an array of values.
#[verifier::external_body]
pub(crate) fn read_elements(text: &str) -> (r: Option<Vec<String>>)
    ensures
        r.deep_view() == json_elements(text@),
{
    let list = serde_json::from_str::<Vec<Value>>(text).ok()?;
    Some(list.into_iter().map(|v| v.to_string()).collect())
}

/// Calls `serde_json::from_str` for a string.
#[verifier::external_body]
pub(crate) fn read_string(text: &str) -> (r: Option<String>)
    ensures
        r.deep_view() == json_string(text@),
{
    serde_json::from_str::<String>(text).ok()
}

/// Calls `serde_json::from_str` for a map of strings. No name stands there twice.
#[verifier::external_body]
pub(crate) fn read_texts(text: &str) -> (r: Option<Vec<(String, String)>>)
    ensures
        r.deep_view() == json_texts(text@),
        r matches Some(v) ==> keys(v.deep_view()).no_duplicates(),
{
    let map = serde_json::from_str::<BTreeMap<String, String>>(text).ok()?;
    Some(map.into_iter().collect())
}

/// The pairs of a map of strings, where there is one.
pub open spec fn pairs_or_none(pairs: Option<Seq<Pair>>) -> Seq<Pair> {
    match pairs {
        Some(p) => p,
        None => Seq::empty(),
    }
}

/// The titles or dates that a JSON file holds, given what was read from it. A file that cannot be read
/// or is no map of strings holds none.
pub fn safe_json_load(content: Option<&str>) -> (r: TagMap)
    ensures
        r@ == match content {
            Some(text) => pairs_or_none(json_texts(text@)),
            None => Seq::empty(),
        },
        r.is_valid(),
{
    match content {
        Some(text) => match read_texts(text) {
            Some(entries) => TagMap { entries },
            None => TagMap::new(),
        },
        None => TagMap::new(),
    }
}

} // verus!
