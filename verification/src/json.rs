//! The JSON payloads that buckets and events carry.
//!
//! Payloads are objects of `serde_json`. The library never looks inside
//! one: it copies payloads and writes string-valued entries into them. What
//! it proves about payloads is stated over `json_entries`.

use vstd::prelude::*;

verus! {

/// `serde_json::Value`, any JSON value. Nothing is said of what is inside.
#[verifier::external_type_specification]
#[verifier::external_body]
pub struct ExJsonValue(serde_json::Value);

/// `serde_json::Map`, the object of `serde_json`. What one holds is spoken
/// of through `json_entries` only.
#[verifier::external_type_specification]
#[verifier::external_body]
#[verifier::reject_recursive_types(K)]
#[verifier::reject_recursive_types(V)]
pub struct ExJsonMap<K, V>(serde_json::Map<K, V>);

/// A JSON object: string keys, arbitrary JSON values.
pub type JsonObject = serde_json::Map<String, serde_json::Value>;

/// A JSON value as the library tells values apart: a string with its
/// characters, or a value of any other kind with its compact JSON text.
pub enum JsonView {
    Text(Seq<char>),
    Other(Seq<char>),
}

/// The entries of a JSON object, by key.
pub type JsonEntries = Map<Seq<char>, JsonView>;

/// What a JSON object holds: its keys, each with the value stored under it.
pub uninterp spec fn json_entries(m: serde_json::Map<String, serde_json::Value>) -> Map<Seq<char>, JsonView>;

/// `serde_json::Map::insert` of a `Value::String`. Afterwards the object
/// holds the string `text` under `key`; no other entry has changed.
#[verifier::external_body]
pub(crate) fn set_string(m: &mut JsonObject, key: &str, text: &str)
    ensures
        json_entries(*final(m)) == json_entries(*old(m)).insert(key@, JsonView::Text(text@)),
{
    m.insert(key.to_owned(), serde_json::Value::String(text.to_owned()));
}

/// `Clone::clone` of `serde_json::Map`. The copy holds the same entries.
#[verifier::external_body]
pub(crate) fn clone_object(m: &JsonObject) -> (copy: JsonObject)
    ensures
        json_entries(copy) == json_entries(*m),
{
    m.clone()
}

} // verus!
