//! Probes into JSON documents, done by serde_json behind trusted wrappers.
//!
//! The library never parses JSON itself: a document travels as bytes, and
//! the few questions the logic asks of one — pretty-print it, list the
//! `name` fields of its `images` array, look a string field up — each go
//! through one wrapper whose result is named by a spec function of the
//! document bytes alone.

use vstd::prelude::*;
use crate::bytes::opt_seq_view;

verus! {

/// What serde_json makes of `doc` when parsed and pretty-printed; `None`
/// when the round through serde_json fails.
pub uninterp spec fn json_pretty_of(doc: Seq<u8>) -> Option<Seq<u8>>;

/// The `name` fields of the elements of `doc`'s top-level `images` array
/// (an element without a string `name` yields `None`); the empty sequence
/// when there is no `images` array; `None` when `doc` does not parse.
pub uninterp spec fn image_names_of(doc: Seq<u8>) -> Option<Seq<Option<Seq<u8>>>>;

/// Whether `doc` parses to a value with field `key`.
pub uninterp spec fn json_has_key_of(doc: Seq<u8>, key: Seq<u8>) -> bool;

/// The string at field `key` of `doc`'s top-level value, if `doc` parses
/// and that field holds a string.
pub uninterp spec fn json_get_str_of(doc: Seq<u8>, key: Seq<u8>) -> Option<Seq<u8>>;

/// `doc`'s top-level value itself, when it parses to a string.
pub uninterp spec fn json_as_str_of(doc: Seq<u8>) -> Option<Seq<u8>>;

/// Per element of `frame`'s `choices` array: the JSON text of the
/// element's `delta.content` value, if it has one.  Empty when `frame` does
/// not parse or has no `choices` array.
pub uninterp spec fn frame_deltas_of(frame: Seq<u8>) -> Seq<Option<Seq<u8>>>;

/// Relies on `serde_json::from_slice` and `serde_json::to_string_pretty`:
/// both depend on the bytes alone, and parsing errs exactly on malformed
/// JSON.  Pretty-printing a parsed value re-parses to an equal value, so
/// the image list — and every other field — survives the round: the
/// pretty text's `name` fields are the document's.
#[verifier::external_body]
pub fn json_pretty(doc: &Vec<u8>) -> (r: Result<Vec<u8>, String>)
    ensures
        r matches Ok(p) ==> json_pretty_of(doc@) == Some(p@),
        r matches Ok(p) ==> image_names_of(p@) == image_names_of(doc@),
        r matches Ok(_) ==> image_names_of(doc@) is Some,
        r matches Err(_) ==> json_pretty_of(doc@) is None,
{
    match serde_json::from_slice::<serde_json::Value>(doc) {
        Ok(v) => match serde_json::to_string_pretty(&v) {
            Ok(s) => Ok(s.into_bytes()),
            Err(e) => Err(e.to_string()),
        },
        Err(e) => Err(e.to_string()),
    }
}

/// Relies on `serde_json::from_slice` and `Value` accessors: the list of
/// `name` fields is a function of the document bytes, and parsing errs
/// exactly on malformed JSON.
#[verifier::external_body]
pub fn json_image_names(doc: &Vec<u8>) -> (r: Result<Vec<Option<Vec<u8>>>, String>)
    ensures
        r matches Ok(ns) ==> image_names_of(doc@) == Some(opt_seq_view(ns@)),
        r matches Err(_) ==> image_names_of(doc@) is None,
{
    let v: serde_json::Value = match serde_json::from_slice(doc) {
        Ok(v) => v,
        Err(e) => {
            return Err(e.to_string());
        }
    };
    let names = match v.get("images").and_then(|i| i.as_array()) {
        Some(arr) => arr
            .iter()
            .map(|e| e.get("name").and_then(|n| n.as_str()).map(|s| s.to_owned().into_bytes()))
            .collect(),
        None => Vec::new(),
    };
    Ok(names)
}

/// Relies on `serde_json::from_slice` and `Value::get`: whether the
/// document's top-level value has the field is a function of the bytes.
#[verifier::external_body]
pub fn json_has_key(doc: &Vec<u8>, key: &Vec<u8>) -> (r: bool)
    ensures
        r == json_has_key_of(doc@, key@),
{
    let k = String::from_utf8_lossy(key).into_owned();
    match serde_json::from_slice::<serde_json::Value>(doc) {
        Ok(v) => v.get(k.as_str()).is_some(),
        Err(_) => false,
    }
}

/// Relies on `serde_json::from_slice`, `Value::get` and `Value::as_str`:
/// the field's string value is a function of the bytes.
#[verifier::external_body]
pub fn json_get_str(doc: &Vec<u8>, key: &Vec<u8>) -> (r: Option<Vec<u8>>)
    ensures
        match r {
            Some(v) => json_get_str_of(doc@, key@) == Some(v@),
            None => json_get_str_of(doc@, key@) is None,
        },
{
    let k = String::from_utf8_lossy(key).into_owned();
    match serde_json::from_slice::<serde_json::Value>(doc) {
        Ok(v) => v.get(k.as_str()).and_then(|x| x.as_str()).map(|s| s.to_owned().into_bytes()),
        Err(_) => None,
    }
}

/// Relies on `serde_json::from_slice` and `Value::as_str`: the top-level
/// string, when the document is one, is a function of the bytes.
#[verifier::external_body]
pub fn json_as_str(doc: &Vec<u8>) -> (r: Option<Vec<u8>>)
    ensures
        match r {
            Some(v) => json_as_str_of(doc@) == Some(v@),
            None => json_as_str_of(doc@) is None,
        },
{
    match serde_json::from_slice::<serde_json::Value>(doc) {
        Ok(v) => v.as_str().map(|s| s.to_owned().into_bytes()),
        Err(_) => None,
    }
}

/// Relies on `serde_json::from_slice`, `Value` accessors and
/// `Value::to_string`: one result per element of the `choices` array, the
/// JSON text of its `delta.content` value, all a function of the bytes.
#[verifier::external_body]
pub fn frame_deltas(frame: &Vec<u8>) -> (r: Vec<Option<Vec<u8>>>)
    ensures
        opt_seq_view(r@) == frame_deltas_of(frame@),
{
    let v: serde_json::Value = match serde_json::from_slice(frame) {
        Ok(v) => v,
        Err(_) => {
            return Vec::new();
        }
    };
    match v.get("choices").and_then(|c| c.as_array()) {
        Some(cs) => cs
            .iter()
            .map(|c| c.get("delta").and_then(|d| d.get("content")).map(|x| x.to_string().into_bytes()))
            .collect(),
        None => Vec::new(),
    }
}

} // verus!
