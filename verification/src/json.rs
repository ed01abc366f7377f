//! A narrow, trusted view into JSON request bodies: one string field,
//! looked up by key.

use vstd::prelude::*;

verus! {

/// The string value at the given key of a JSON object body, if the body
/// parses as a JSON object and holds a string there.
pub uninterp spec fn json_str_field(body: Seq<char>, key: Seq<char>) -> Option<Seq<char>>;

/// Relies on serde_json's `from_str`, `Value::get` and `Value::as_str`:
/// parsing is a pure function of the text, so the field found, if any,
/// depends on the body and the key alone.
#[verifier::external_body]
pub(crate) fn json_string_field(body: &str, key: &str) -> (r: Option<String>)
    ensures
        r is Some <==> json_str_field(body@, key@) is Some,
        r matches Some(s) ==> json_str_field(body@, key@) == Some(s@),
{
    let parsed: Option<serde_json::Value> = serde_json::from_str(body).ok();
    match parsed {
        None => None,
        Some(v) => v.get(key).and_then(|f| f.as_str()).map(|s| s.to_string()),
    }
}

} // verus!
