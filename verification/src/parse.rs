//! The one outside call of the decoder: turning a line of text into a list
//! of raw JSON chunks.  `serde_json` does the JSON parsing; the result is
//! converted, variant for variant, into the decoder's own chunk type.

use vstd::prelude::*;
use crate::json::{Json, JVal, table_view};

verus! {

#[verifier::external_type_specification]
#[verifier::external_body]
pub struct ExValue(serde_json::Value);

/// What parsing this text as a JSON array yields: the chunk list when the
/// text is one JSON array (surrounding whitespace allowed), nothing
/// otherwise.  The result depends on the text alone.
pub uninterp spec fn parse_chunks(s: Seq<char>) -> Option<Seq<JVal>>;

/// Converts one parsed `serde_json` value into a chunk, variant for
/// variant.  A number that fits `i64` becomes `Int`, an integer that only
/// fits `u64` becomes `BigUint`, and any other number is carried as its
/// decimal text.
#[verifier::external_body]
fn json_of_value(v: serde_json::Value) -> Json {
    match v {
        serde_json::Value::Null => Json::Null,
        serde_json::Value::Bool(b) => Json::Bool(b),
        serde_json::Value::Number(n) => match (n.as_i64(), n.as_u64()) {
            (Some(i), _) => Json::Int(i),
            (None, Some(u)) => Json::BigUint(u),
            _ => Json::NumText(n.to_string()),
        },
        serde_json::Value::String(s) => Json::Str(s),
        serde_json::Value::Array(a) => Json::Arr(a.into_iter().map(json_of_value).collect()),
        serde_json::Value::Object(m) => Json::Obj(
            m.into_iter().map(|(k, x)| (k, json_of_value(x))).collect(),
        ),
    }
}

/// Relies on `serde_json::from_str::<Vec<serde_json::Value>>`: it parses the
/// text as one JSON array and fails on anything else; the outcome is a
/// function of the text alone, named by [`parse_chunks`].
#[verifier::external_body]
pub(crate) fn parse_chunk_array(s: &str) -> (r: Option<Vec<Json>>)
    ensures
        match r {
            Some(v) => parse_chunks(s@) == Some(table_view(v@)),
            None => parse_chunks(s@) is None,
        },
{
    match serde_json::from_str::<Vec<serde_json::Value>>(s) {
        Ok(vs) => Some(vs.into_iter().map(json_of_value).collect()),
        Err(_) => None,
    }
}

} // verus!
