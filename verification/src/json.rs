//! Reading values out of JSON text, through `serde_json`.
//!
//! Each function parses a JSON document with `serde_json::from_str` into a
//! `serde_json::Value` and reads one value at a JSON Pointer (RFC 6901) with
//! `Value::pointer`.  What that gives takes the JSON grammar to describe, so
//! the results are named here, as functions of the document and the pointer.
use vstd::prelude::*;

verus! {

/// Name for whether `serde_json::from_str::<Value>` accepts `doc`.
pub uninterp spec fn json_parses(doc: Seq<char>) -> bool;

/// Name for the string found at `pointer` in the JSON document `doc`, if the
/// document parses and holds a string there.
pub uninterp spec fn json_string_at(doc: Seq<char>, pointer: Seq<char>) -> Option<Seq<char>>;

/// Name for the unsigned integer found at `pointer` in `doc`, if the document
/// parses and holds there a number that `Value::as_u64` accepts.
pub uninterp spec fn json_u64_at(doc: Seq<char>, pointer: Seq<char>) -> Option<u64>;

/// Name for whether the document parses and holds a value other than `null`
/// at `pointer`.
pub uninterp spec fn json_non_null_at(doc: Seq<char>, pointer: Seq<char>) -> bool;

/// `serde_json::from_str::<Value>(doc).is_ok()`.  Contract: the answer is
/// the name [`json_parses`] of the document.
#[verifier::external_body]
pub(crate) fn json_is_valid(doc: &str) -> (r: bool)
    ensures
        r == json_parses(doc@),
{
    serde_json::from_str::<serde_json::Value>(doc).is_ok()
}

/// `serde_json::from_str::<Value>(doc)`, then `Value::pointer(pointer)`, then
/// `Value::as_str`, copied out.  Contract: the answer is the name
/// [`json_string_at`] of the document and pointer.
#[verifier::external_body]
pub(crate) fn json_str_at_pointer(doc: &str, pointer: &str) -> (r: Option<String>)
    ensures
        r matches Some(s) ==> json_string_at(doc@, pointer@) == Some(s@),
        r is None ==> json_string_at(doc@, pointer@) is None,
{
    let v: serde_json::Value = serde_json::from_str(doc).ok()?;
    v.pointer(pointer).and_then(|x| x.as_str()).map(|s| s.to_string())
}

/// `serde_json::from_str::<Value>(doc)`, then `Value::pointer(pointer)`, then
/// `Value::as_u64`.  Contract: the answer is the name [`json_u64_at`].
#[verifier::external_body]
pub(crate) fn json_u64_at_pointer(doc: &str, pointer: &str) -> (r: Option<u64>)
    ensures
        r == json_u64_at(doc@, pointer@),
{
    let v: serde_json::Value = serde_json::from_str(doc).ok()?;
    v.pointer(pointer).and_then(|x| x.as_u64())
}

/// `serde_json::from_str::<Value>(doc)`, then `Value::pointer(pointer)`, then
/// `Value::is_null`.  Contract: the answer is the name [`json_non_null_at`].
#[verifier::external_body]
pub(crate) fn json_non_null_at_pointer(doc: &str, pointer: &str) -> (r: bool)
    ensures
        r == json_non_null_at(doc@, pointer@),
{
    match serde_json::from_str::<serde_json::Value>(doc) {
        Ok(v) => match v.pointer(pointer) {
            Some(x) => !x.is_null(),
            None => false,
        },
        Err(_) => false,
    }
}

} // verus!
