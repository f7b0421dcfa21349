//! The crate's trust boundary.
//!
//! Declarations of the outside types that appear in this library's
//! signatures, two names for results that outside code computes, and one
//! wrapper per outside call, each stating the contract the rest of the
//! library relies on.

use vstd::prelude::*;

verus! {

#[verifier::external_type_specification]
#[verifier::external_body]
pub struct ExJsonValue(serde_json::Value);

#[verifier::external_type_specification]
#[verifier::external_body]
pub struct ExUrlParseError(url::ParseError);

/// Whether serde_json accepts `s` as the text of exactly one JSON value.
/// A function of the bytes alone.
pub uninterp spec fn json_accepts(s: Seq<u8>) -> bool;

/// Whether the url crate accepts `s` as an absolute URL.
/// A function of the characters alone.
pub uninterp spec fn url_parse_ok(s: Seq<char>) -> bool;

/// Relies on serde_json::from_slice: whether the same bytes deserialise is
/// decided by the bytes alone, so one name covers every call.  A rejection
/// comes back as serde_json's diagnostic, rendered to text.
#[verifier::external_body]
pub fn json_from_slice(b: &[u8]) -> (r: Result<serde_json::Value, String>)
    ensures
        r.is_ok() == json_accepts(b@),
{
    serde_json::from_slice::<serde_json::Value>(b).map_err(|e| e.to_string())
}

/// Relies on url::Url::parse: whether a string is a well-formed absolute
/// URL is decided by the string alone.  The parsed value is dropped; a
/// caller that needs it parses again outside the library.  Parsing opens
/// no connection.
#[verifier::external_body]
pub fn url_check(s: &str) -> (r: Result<(), url::ParseError>)
    ensures
        r.is_ok() == url_parse_ok(s@),
{
    match url::Url::parse(s) {
        Ok(_) => Ok(()),
        Err(e) => Err(e),
    }
}

} // verus!
