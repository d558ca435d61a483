//! Reading single fields out of JSON text.
use vstd::prelude::*;

verus! {

/// What `serde_json` reads at `key` of the JSON object in `json`, when it is a string.
pub uninterp spec fn json_text(json: Seq<char>, key: Seq<char>) -> Option<Seq<char>>;

/// `serde_json::from_str` into a `serde_json::Value`, then `Value::get` and
/// `Value::as_str`: the string at `key` of the object `json` holds, if `json` parses,
/// is an object, and holds a string there. The result is the name `json_text`.
#[verifier::external_body]
pub(crate) fn json_text_field(json: &str, key: &str) -> (r: Option<String>)
    ensures
        match r {
            Some(s) => json_text(json@, key@) == Some(s@),
            None => json_text(json@, key@) is None,
        },
{
    let value: serde_json::Value = serde_json::from_str(json).ok()?;
    value.get(key)?.as_str().map(str::to_string)
}

} // verus!
