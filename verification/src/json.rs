//! The JSON values that configuration leaves open, and the bodies of requests.
use crate::text;
use vstd::prelude::*;

verus! {

/// A JSON value, as far as the rules look into it.
#[derive(Clone, Debug, PartialEq, Eq)]
pub enum Value {
    Null,
    Bool(bool),
    /// A number that is a non-negative 64-bit integer.
    Unsigned(u64),
    Text(String),
    /// An object, with its member `enabled` where that is a switch.
    Object { enabled: Option<bool> },
    /// Any other number, or an array.
    Other,
}

// ---- bodies ----

/// What a body holds under a key: nothing where it is no JSON; else a text, where it
/// is an object with a text under that key.
pub uninterp spec fn text_member(body: Seq<u8>, key: Seq<char>) -> Option<Option<Seq<char>>>;

/// What a body holds under a key, with plain values.
pub open spec fn member_view(m: Option<Option<String>>) -> Option<Option<Seq<char>>> {
    match m {
        None => None,
        Some(t) => Some(text::opt_text(t)),
    }
}

/// Reads a text of a body: `serde_json::from_slice` to a `serde_json::Value`, then
/// `Value::get` and `Value::as_str`. What they give depends on the body and the key
/// alone and is given a name.
#[verifier::external_body]
pub(crate) fn read_member(body: &[u8], key: &str) -> (r: Option<Option<String>>)
    ensures
        member_view(r) == text_member(body@, key@),
{
    let value: serde_json::Value = serde_json::from_slice(body).ok()?;
    Some(value.get(key).and_then(|member| member.as_str()).map(|member| member.to_owned()))
}

} // verus!
