//! Settings documents.
//!
//! A provider's settings are a `serde_json::Value` that the library carries
//! without looking inside. What it needs to know of one is the text that
//! `serde_json` writes for it.

use vstd::prelude::*;

verus! {

/// `serde_json::Value`: a JSON document. The library sees nothing inside it.
#[verifier::external_type_specification]
#[verifier::external_body]
pub struct ExValue(serde_json::Value);

/// `serde_json::Error`: why `serde_json` could not read or write a document.
#[verifier::external_type_specification]
#[verifier::external_body]
pub struct ExJsonError(serde_json::Error);

/// The bytes that `serde_json::to_vec_pretty` writes for a document:
/// two-space indentation, object members in the order the document holds them.
pub uninterp spec fn pretty_json(doc: serde_json::Value) -> Seq<u8>;

/// Whether `serde_json::to_vec_pretty` writes the document, rather than
/// fail on it.
pub uninterp spec fn json_writable(doc: serde_json::Value) -> bool;

/// The pretty text of the document that `serde_json::from_str` reads from a
/// text, if it reads one.
pub uninterp spec fn parsed_json(text: Seq<char>) -> Option<Seq<u8>>;

/// The bytes `null`.
pub open spec fn null_text() -> Seq<u8> {
    seq![0x6e, 0x75, 0x6c, 0x6c]
}

/// `serde_json::to_vec_pretty`: whether it succeeds depends on the document
/// alone, and when it does, the bytes are the pretty text of the document.
#[verifier::external_body]
pub(crate) fn to_pretty_bytes(doc: &serde_json::Value) -> (r: Result<Vec<u8>, serde_json::Error>)
    ensures
        r is Ok <==> json_writable(*doc),
        r matches Ok(bytes) ==> bytes@ == pretty_json(*doc),
{
    serde_json::to_vec_pretty(doc)
}

/// `serde_json::from_str`, read as a `Value`: whether it reads a document,
/// and which, depends on the text alone.
#[verifier::external_body]
pub(crate) fn parse_value(text: &str) -> (r: Result<serde_json::Value, serde_json::Error>)
    ensures
        r is Ok <==> parsed_json(text@) is Some,
        r matches Ok(doc) ==> parsed_json(text@) == Some(pretty_json(doc)),
{
    serde_json::from_str(text)
}

/// `serde_json::Value::Null`, which `serde_json` writes, without fail, as
/// `null`.
#[verifier::external_body]
pub(crate) fn null_value() -> (r: serde_json::Value)
    ensures
        pretty_json(r) == null_text(),
        json_writable(r),
{
    serde_json::Value::Null
}

/// `Clone::clone` of `serde_json::Value`: a document with the same content,
/// which is written as the first is.
pub assume_specification[ <serde_json::Value as Clone>::clone ](
    doc: &serde_json::Value,
) -> (r: serde_json::Value)
    ensures
        pretty_json(r) == pretty_json(*doc),
        json_writable(r) == json_writable(*doc),
;

} // verus!
