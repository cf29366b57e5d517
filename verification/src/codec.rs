//! The stored-value wire codec. The store hands values back base64-encoded;
//! a value is usable only if that encoding decodes and the bytes read as
//! UTF-8 text. The codec itself is an outside collaborator: its decoding is
//! named, not restated.

use vstd::prelude::*;
use vstd::utf8::{decode_utf8, valid_utf8};
use base64::Engine;

verus! {

/// What the standard-alphabet base64 decoding of a wire value yields, when
/// it decodes at all. The result depends on the input characters alone.
pub uninterp spec fn b64_decoded_of(s: Seq<char>) -> Option<Seq<u8>>;

/// Relies on base64's `Engine::decode` with the `STANDARD` engine: decodes
/// the standard alphabet with padding, a function of the input alone.
#[verifier::external_body]
fn decode_base64(s: &str) -> (r: Option<Vec<u8>>)
    ensures
        r matches Some(b) ==> b64_decoded_of(s@) == Some(b@),
        r is None ==> b64_decoded_of(s@) is None,
{
    match base64::engine::general_purpose::STANDARD.decode(s) {
        Ok(b) => Some(b),
        Err(_) => None,
    }
}

/// Relies on String::from_utf8: succeeds exactly on valid UTF-8 input and
/// returns its decoding.
#[verifier::external_body]
fn bytes_to_string(b: Vec<u8>) -> (r: Option<String>)
    ensures
        r matches Some(t) ==> valid_utf8(b@) && t@ == decode_utf8(b@),
        r is None ==> !valid_utf8(b@),
{
    match String::from_utf8(b) {
        Ok(t) => Some(t),
        Err(_) => None,
    }
}

/// The decoded form of a stored wire value: its base64 decoding read as
/// UTF-8 text; nothing if either step fails.
pub open spec fn decoded_of(s: Seq<char>) -> Option<Seq<char>> {
    match b64_decoded_of(s) {
        Some(b) => if valid_utf8(b) {
            Some(decode_utf8(b))
        } else {
            None
        },
        None => None,
    }
}

/// Decodes one stored value through the wire codec; `None` when the wire
/// form is not valid base64 or its bytes are not text.
pub fn decode_value(s: &str) -> (r: Option<String>)
    ensures
        r matches Some(t) ==> decoded_of(s@) == Some(t@),
        r is None ==> decoded_of(s@) is None,
{
    match decode_base64(s) {
        Some(b) => bytes_to_string(b),
        None => None,
    }
}

} // verus!
