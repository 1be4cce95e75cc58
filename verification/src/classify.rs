//! Classification of one log line: parse it as JSON and extract the
//! canonical string form of its top-level `"type"` field.
//!
//! The key of a line is the *serialized* form of whatever value sits in the
//! `"type"` field, so a string field yields its quoted representation and a
//! number yields its numeric text; unequal values never collide. A line that
//! is not valid JSON, is not an object, or has no `"type"` field has no key
//! and falls into the dedicated invalid bucket.

use vstd::prelude::*;

verus! {

/// The classification key of a line: the compact serialization of the
/// top-level `"type"` field of the line parsed as JSON, or `None` when the
/// line does not parse, is not an object, or lacks that field.
///
/// The result depends on the characters of the line alone: parsing is a
/// function of the input, and serialization of the extracted value is
/// deterministic (object members are kept in a sorted map).
pub uninterp spec fn type_key_of(line: Seq<char>) -> Option<Seq<char>>;

/// Relies on `serde_json::from_str`, `serde_json::Value::get` and
/// `serde_json::Value`'s `to_string`: parsing either fails or yields a value
/// determined by the input characters; `get` looks up a top-level object
/// member and returns `None` on non-objects and missing members; and
/// `to_string` writes the compact serialization of the member's value.
#[verifier::external_body]
fn extract_type_key(line: &str) -> (r: Option<String>)
    ensures
        match r {
            Some(k) => type_key_of(line@) == Some(k@),
            None => type_key_of(line@) is None,
        },
{
    serde_json::from_str::<serde_json::Value>(line)
        .ok()
        .and_then(|json| json.get("type").map(|v| v.to_string()))
}

/// Classifies one line: its key when the line carries a usable `"type"`
/// field, and `None` for the invalid bucket otherwise.
pub fn classify(line: &str) -> (r: Option<String>)
    ensures
        match r {
            Some(k) => type_key_of(line@) == Some(k@),
            None => type_key_of(line@) is None,
        },
{
    extract_type_key(line)
}

} // verus!
