//! JSON values, as far as the answers of the contents service are read.

use crate::text::same_text;
use vstd::prelude::*;

verus! {

/// A JSON value.
#[derive(Debug, PartialEq, Eq)]
pub enum Json {
    Null,
    Bool(bool),
    /// A number, as its decimal text.
    Number(String),
    Text(String),
    Array(Vec<Json>),
    /// An object: its members, each a name and a value.
    Object(Vec<(String, Json)>),
}

/// A JSON value of the `serde_json` crate. Nothing of its inside is known here.
#[verifier::external_type_specification]
#[verifier::external_body]
pub struct ExValue(serde_json::Value);

/// What a `serde_json` value holds, as a value of this crate.
pub uninterp spec fn json_model(value: serde_json::Value) -> Json;

/// The value that a text parses to with `serde_json::from_str`, if it is JSON.
pub uninterp spec fn json_of(text: Seq<char>) -> Option<Json>;

/// `serde_json::from_str` for a `serde_json::Value`. Whether a text is JSON, and
/// which value it writes, depends on the text alone: that much is claimed, and
/// nothing of what JSON is.
#[verifier::external_body]
fn parse_value(text: &str) -> (parsed: Option<serde_json::Value>)
    ensures
        match parsed {
            Some(value) => json_of(text@) == Some(json_model(value)),
            None => json_of(text@) is None,
        },
{
    serde_json::from_str::<serde_json::Value>(text).ok()
}

/// Rewrites a `serde_json` value as a value of this crate, variant for variant. A
/// number becomes its text; the members of an object come in the order in which
/// `serde_json` hands them out.
#[verifier::external_body]
fn from_value(value: serde_json::Value) -> (json: Json)
    ensures
        json == json_model(value),
{
    match value {
        serde_json::Value::Null => Json::Null,
        serde_json::Value::Bool(b) => Json::Bool(b),
        serde_json::Value::Number(n) => Json::Number(n.to_string()),
        serde_json::Value::String(s) => Json::Text(s),
        serde_json::Value::Array(items) => Json::Array(items.into_iter().map(from_value).collect()),
        serde_json::Value::Object(members) => Json::Object(
            members.into_iter().map(|(name, member)| (name, from_value(member))).collect(),
        ),
    }
}

/// Reads a text as JSON.
pub fn parse_json(text: &str) -> (parsed: Option<Json>)
    ensures
        parsed == json_of(text@),
{
    match parse_value(text) {
        Some(value) => Some(from_value(value)),
        None => None,
    }
}

/// The value of the first member called `name`.
pub open spec fn member(members: Seq<(String, Json)>, name: Seq<char>) -> Option<Json>
    decreases members.len(),
{
    if members.len() == 0 {
        None
    } else if members[0].0@ == name {
        Some(members[0].1)
    } else {
        member(members.skip(1), name)
    }
}

/// Looks up the first member called `name`.
pub fn get<'a>(members: &'a Vec<(String, Json)>, name: &str) -> (found: Option<&'a Json>)
    ensures
        match found {
            Some(value) => member(members@, name@) == Some(*value),
            None => member(members@, name@) is None,
        },
{
    let mut i: usize = 0;
    assert(members@.skip(0) == members@);
    while i < members.len()
        invariant
            i <= members@.len(),
            member(members@, name@) == member(members@.skip(i as int), name@),
        decreases members@.len() - i,
    {
        assert(members@.skip(i as int).skip(1) == members@.skip(i + 1));
        if same_text(members[i].0.as_str(), name) {
            return Some(&members[i].1);
        }
        i = i + 1;
    }
    None
}

} // verus!
