//! JSON texts, read with `serde_json`. A JSON value travels through the
//! library as its text; reading a field, the items of a list or a string's
//! bytes goes back to `serde_json` each time.

use vstd::prelude::*;
use serde_json::Value;

verus! {

/// Whether `text` is one JSON value, as `serde_json` reads it.
pub uninterp spec fn json_valid(text: Seq<u8>) -> bool;

/// The compact text of field `key` of the JSON object `text`; `None` where
/// `text` is no JSON object or has no such field.
pub uninterp spec fn json_field_text(text: Seq<u8>, key: Seq<char>) -> Option<Seq<u8>>;

/// The compact texts of the items of the JSON list `text`; `None` where
/// `text` is no JSON list.
pub uninterp spec fn json_item_texts(text: Seq<u8>) -> Option<Seq<Seq<u8>>>;

/// The UTF-8 bytes of the JSON string `text`; `None` where `text` is no
/// JSON string.
pub uninterp spec fn json_string_bytes(text: Seq<u8>) -> Option<Seq<u8>>;

/// Whether `serde_json::from_slice::<Value>` accepts `text`. Trusted: the
/// result is named, as it depends on the bytes alone.
#[verifier::external_body]
pub(crate) fn json_parses(text: &Vec<u8>) -> (r: bool)
    ensures
        r == json_valid(text@),
{
    serde_json::from_slice::<Value>(text).is_ok()
}

/// Parses `text` with `serde_json::from_slice::<Value>`, looks the field up
/// with `Value::get`, and writes it back with `Value::to_string`. Trusted:
/// the result is named, as it depends on the bytes and the key alone.
#[verifier::external_body]
pub(crate) fn json_field(text: &Vec<u8>, key: &str) -> (r: Option<Vec<u8>>)
    ensures
        match r {
            Some(v) => json_field_text(text@, key@) == Some(v@),
            None => json_field_text(text@, key@) is None,
        },
{
    match serde_json::from_slice::<Value>(text) {
        Ok(value) => match value.get(key) {
            Some(field) => Some(field.to_string().into_bytes()),
            None => None,
        },
        Err(_) => None,
    }
}

/// Parses `text` with `serde_json::from_slice::<Value>` and, for a list,
/// writes each item back with `Value::to_string`. Trusted: the result is
/// named, as it depends on the bytes alone.
#[verifier::external_body]
pub(crate) fn json_items(text: &Vec<u8>) -> (r: Option<Vec<Vec<u8>>>)
    ensures
        match r {
            Some(v) => json_item_texts(text@) == Some(v@.map_values(|p: Vec<u8>| p@)),
            None => json_item_texts(text@) is None,
        },
{
    match serde_json::from_slice::<Value>(text) {
        Ok(Value::Array(items)) => {
            let mut texts: Vec<Vec<u8>> = Vec::new();
            for item in items.iter() {
                texts.push(item.to_string().into_bytes());
            }
            Some(texts)
        },
        _ => None,
    }
}

/// Parses `text` with `serde_json::from_slice::<Value>` and, for a string,
/// returns its bytes. Trusted: the result is named, as it depends on the
/// bytes alone.
#[verifier::external_body]
pub(crate) fn json_string(text: &Vec<u8>) -> (r: Option<Vec<u8>>)
    ensures
        match r {
            Some(v) => json_string_bytes(text@) == Some(v@),
            None => json_string_bytes(text@) is None,
        },
{
    match serde_json::from_slice::<Value>(text) {
        Ok(Value::String(s)) => Some(s.into_bytes()),
        _ => None,
    }
}

/// Whether `text` is one JSON value.
pub fn is_json(text: &Vec<u8>) -> (r: bool)
    ensures
        r == json_valid(text@),
{
    json_parses(text)
}

} // verus!
