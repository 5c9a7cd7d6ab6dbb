//! The two facts the broker reads from the JSON body of a CONNECT: whether
//! it is JSON at all, and the boolean members it looks at.

use vstd::prelude::*;

verus! {

/// Whether `serde_json` reads `b` as one JSON value.
pub uninterp spec fn json_accepts(b: Seq<u8>) -> bool;

/// The member `key` of the JSON object `b`, where it is a boolean.
pub uninterp spec fn json_bool_field(b: Seq<u8>, key: Seq<char>) -> Option<bool>;

/// Relies on `serde_json::from_slice` into a `serde_json::Value` (whether
/// the bytes are one JSON value), then on `Value::get` and `Value::as_bool`
/// (the member `key`, where it is a boolean). `None` where the bytes are not
/// JSON.
#[verifier::external_body]
pub(crate) fn json_bool_member(json: &[u8], key: &str) -> (r: Option<Option<bool>>)
    ensures
        r is Some == json_accepts(json@),
        r is Some ==> r->0 == json_bool_field(json@, key@),
{
    match serde_json::from_slice::<serde_json::Value>(json) {
        Ok(value) => match value.get(key) {
            Some(member) => Some(member.as_bool()),
            None => Some(None),
        },
        Err(_) => None,
    }
}

} // verus!
