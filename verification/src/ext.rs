//! The trusted boundary: every call into an outside crate (serde_json,
//! chrono, dirs) and into the parts of std that vstd gives no
//! specification for goes through one of the wrappers here.  Verus
//! believes their contracts without reading the bodies, so each states
//! no more than the callee's own documentation promises.

use vstd::prelude::*;

verus! {

#[verifier::external_type_specification]
#[verifier::external_body]
pub struct ExValue(serde_json::Value);

/// The keys of the JSON object that `s` parses to, in ascending order,
/// or `None` when `s` is not a JSON document whose top level is an
/// object.  Parsing is a function of the text alone, so the keys can be
/// given a name here; the values stay opaque.
pub uninterp spec fn json_object_keys(s: Seq<char>) -> Option<Seq<Seq<char>>>;

/// Relies on `serde_json::from_str::<serde_json::Map<String, Value>>`:
/// parses a JSON object document into its key/value pairs, keys
/// distinct and in ascending order (the map is backed by a `BTreeMap`),
/// and fails exactly when the text is not such a document.
#[verifier::external_body]
pub(crate) fn parse_json_object(s: &str) -> (r: Option<Vec<(String, serde_json::Value)>>)
    ensures
        match r {
            Some(v) => {
                &&& json_object_keys(s@) == Some(
                    v@.map_values(|p: (String, serde_json::Value)| p.0@),
                )
                &&& forall|i: int, j: int| 0 <= i < j < v@.len() ==> v@[i].0@ != v@[j].0@
            },
            None => json_object_keys(s@) == None::<Seq<Seq<char>>>,
        },
{
    match serde_json::from_str::<serde_json::Map<String, serde_json::Value>>(s) {
        Ok(m) => Some(m.into_iter().collect()),
        Err(_) => None,
    }
}

/// Relies on `serde_json::Value::as_bool`: `Some` exactly for a JSON
/// boolean.  The value is opaque to the verifier, so nothing is claimed
/// of the result.
#[verifier::external_body]
pub(crate) fn value_as_bool(v: &serde_json::Value) -> Option<bool> {
    v.as_bool()
}

/// Relies on `serde_json::Value::as_str`: `Some` exactly for a JSON
/// string, whose characters are returned.
#[verifier::external_body]
pub(crate) fn value_as_str(v: &serde_json::Value) -> Option<String> {
    match v.as_str() {
        Some(s) => Some(s.to_string()),
        None => None,
    }
}

/// Relies on `serde_json::Value::as_u64`: `Some` exactly for a JSON
/// integer representable as a `u64`.
#[verifier::external_body]
pub(crate) fn value_as_u64(v: &serde_json::Value) -> Option<u64> {
    v.as_u64()
}

/// Relies on `serde_json::Value::is_null`: true exactly for JSON null.
#[verifier::external_body]
pub(crate) fn value_is_null(v: &serde_json::Value) -> bool {
    v.is_null()
}

/// Relies on `serde_json::Value::get`: the field of a JSON object under
/// the given key, `None` when absent or when the value is no object.
#[verifier::external_body]
pub(crate) fn value_get<'a>(v: &'a serde_json::Value, key: &str) -> Option<&'a serde_json::Value> {
    v.get(key)
}

/// The rank document that `s` parses to — a JSON object of integer
/// ranks — or `None` when `s` is not such a document (then corrupt
/// order state reads as empty).  Parsing is a function of the text
/// alone, so the whole result can be given a name: its values are
/// plain integers.
pub uninterp spec fn order_doc_of(s: Seq<char>) -> Option<Map<Seq<char>, usize>>;

/// Relies on `serde_json::from_str::<BTreeMap<String, usize>>`: parses
/// the order document into its entries, keys distinct (and in
/// ascending order, though nothing rests on that), each value an
/// integer rank that fits a `usize`; fails exactly when the text is
/// not such a document.
#[verifier::external_body]
pub(crate) fn parse_order_json(s: &str) -> (r: Option<Vec<(String, usize)>>)
    ensures
        match r {
            Some(v) => {
                &&& crate::sidecar::distinct_keys(v@)
                &&& order_doc_of(s@) == Some(crate::sidecar::assoc_map(v@))
            },
            None => order_doc_of(s@) == None::<Map<Seq<char>, usize>>,
        },
{
    match serde_json::from_str::<std::collections::BTreeMap<String, usize>>(s) {
        Ok(m) => Some(m.into_iter().collect()),
        Err(_) => None,
    }
}

/// Relies on `chrono::Utc::now().to_rfc3339()`: the current UTC time in
/// RFC 3339 form, which is never the empty string.  The value depends
/// on the clock, so nothing more is claimed.
#[verifier::external_body]
pub fn utc_now_rfc3339() -> (r: String)
    ensures
        r@.len() > 0,
{
    chrono::Utc::now().to_rfc3339()
}

/// Relies on `chrono::Local::now().format`: a default note title — the
/// word "memo" in Japanese stamped with the local date and time.  The
/// pattern starts with a literal word, so the result is never empty;
/// beyond that it depends on the clock.
#[verifier::external_body]
pub fn local_now_title() -> (r: String)
    ensures
        r@.len() > 0,
{
    chrono::Local::now().format("\u{30e1}\u{30e2}_%Y-%m-%d_%H%M").to_string()
}

/// Relies on `chrono::Local::now().timestamp()`: seconds since the Unix
/// epoch, by the clock.
#[verifier::external_body]
pub fn unix_timestamp_now() -> i64 {
    chrono::Local::now().timestamp()
}

/// Relies on `dirs::home_dir`: the platform's home directory, if it has
/// one; the result depends on the environment, so nothing is claimed.
#[verifier::external_body]
pub fn home_dir_string() -> Option<String> {
    match dirs::home_dir() {
        Some(p) => Some(p.to_string_lossy().into_owned()),
        None => None,
    }
}

/// Relies on `String::from_iter` over `char`: collects exactly the
/// given characters, in order.
#[verifier::external_body]
pub fn chars_to_string(v: &Vec<char>) -> (r: String)
    ensures
        r@ == v@,
{
    v.iter().collect()
}

} // verus!
