//! JSON documents as plain library values, read from bytes by serde_json.

use vstd::prelude::*;

verus! {

#[verifier::external_type_specification]
#[verifier::external_body]
pub struct ExValue(serde_json::Value);

/// A JSON number: its decimal text, and its value when it is an integer that
/// fits in an `i64`.
#[derive(Debug)]
pub struct JsonNumber {
    pub text: String,
    pub int: Option<i64>,
}

/// A JSON document.
#[derive(Debug)]
pub enum Json {
    Null,
    Bool(bool),
    Number(JsonNumber),
    Str(String),
    Array(Vec<Json>),
    /// Members in the order the parser's map yields them (by key), each key once.
    Object(Vec<(String, Json)>),
}

/// The document that `b` holds, when the bytes are one JSON document.
pub uninterp spec fn json_of(b: Seq<u8>) -> Option<Json>;

/// Relies on serde_json::from_slice: parses the bytes as one JSON document,
/// `None` when they are not one.
#[verifier::external_body]
pub(crate) fn parse_value(bytes: &[u8]) -> (r: Option<serde_json::Value>) {
    serde_json::from_slice(bytes).ok()
}

/// Relies on the variants of serde_json::Value, the iteration of
/// serde_json::Map, and Number's Display and `as_i64`: `v` rewritten one for
/// one as a `Json`.
#[verifier::external_body]
fn to_json(v: &serde_json::Value) -> (r: Json) {
    match v {
        serde_json::Value::Null => Json::Null,
        serde_json::Value::Bool(b) => Json::Bool(*b),
        serde_json::Value::Number(n) => Json::Number(JsonNumber { text: n.to_string(), int: n.as_i64() }),
        serde_json::Value::String(s) => Json::Str(s.clone()),
        serde_json::Value::Array(a) => Json::Array(a.iter().map(to_json).collect()),
        serde_json::Value::Object(m) => Json::Object(m.iter().map(|(k, x)| (k.clone(), to_json(x))).collect()),
    }
}

/// Relies on serde_json::from_slice, whose result depends on the bytes alone:
/// the document that `bytes` holds, `None` when they are not one JSON
/// document.
#[verifier::external_body]
pub fn parse_json(bytes: &[u8]) -> (r: Option<Json>)
    ensures
        r == json_of(bytes@),
{
    serde_json::from_slice::<serde_json::Value>(bytes).ok().map(|v| to_json(&v))
}

} // verus!
