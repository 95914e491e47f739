//! JSON bodies: `serde_json` reads and writes them; the library frames them.
use vstd::prelude::*;
use vstd::utf8::valid_utf8;

verus! {

/// `serde_json::Value`, carried through as it is: the library never looks
/// inside a JSON value, it only has `serde_json` turn it into text and back.
#[verifier::external_type_specification]
#[verifier::external_body]
pub struct ExJsonValue(serde_json::Value);

/// The bytes that `serde_json::to_vec` writes for a value, or `None` where it
/// reports an error.
pub uninterp spec fn json_encoding(v: serde_json::Value) -> Option<Seq<u8>>;

/// The value that `serde_json::from_str` reads from a text, or `None` where it
/// reports an error.
pub uninterp spec fn json_decoding(text: Seq<char>) -> Option<serde_json::Value>;

/// Calls `serde_json::to_vec` on a JSON value.
///
/// Trusted: it succeeds on every `Value` (the source writes into a `Vec`,
/// which never fails, map keys are strings, and a non-finite float, which a
/// `Number` cannot hold anyway, would be written as `null`); its result is
/// `json_encoding` of the value, and what it writes is valid UTF-8
/// (`serde_json::to_string` relies on that in its source) and not empty
/// (every JSON value is written as at least one character, `null` at the
/// least). What the bytes are for a given value is left unsaid: `serde_json`
/// decides it.
#[verifier::external_body]
pub(crate) fn json_to_vec(v: &serde_json::Value) -> (r: Result<Vec<u8>, serde_json::Error>)
    ensures
        r is Ok,
        r is Ok <==> json_encoding(*v) is Some,
        r matches Ok(b) ==> json_encoding(*v) == Some(b@) && valid_utf8(b@) && b@.len() > 0,
{
    serde_json::to_vec(v)
}

/// Calls `serde_json::from_str` to read a JSON value from a text.
///
/// Trusted: its result is `json_decoding` of the text. Which texts it accepts
/// and what value it reads from them is left unsaid: `serde_json` decides it.
#[verifier::external_body]
pub(crate) fn json_from_str(s: &str) -> (r: Result<serde_json::Value, serde_json::Error>)
    ensures
        r is Ok <==> json_decoding(s@) is Some,
        r matches Ok(v) ==> json_decoding(s@) == Some(v),
{
    serde_json::from_str(s)
}

/// `<serde_json::Value as Clone>::clone`, which the derived `Clone` of
/// `MooBody` calls: trusted to give an equal value (the source derives
/// `Clone` for `Value`).
pub assume_specification[ <serde_json::Value as Clone>::clone ](v: &serde_json::Value) -> (r: serde_json::Value)
    ensures
        r == *v,
;

} // verus!
