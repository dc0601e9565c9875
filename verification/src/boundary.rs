//! What the library takes on trust: calls into std and into outside crates
//! whose results Verus cannot see into.

use vstd::prelude::*;
use vstd::utf8::{decode_utf8, valid_utf8};

verus! {

/// The text that `String::from_utf8_lossy` makes of bytes that are not valid
/// UTF-8: each invalid sequence becomes U+FFFD.
pub uninterp spec fn utf8_repaired(bytes: Seq<u8>) -> Seq<char>;

/// The text for `bytes`, read as UTF-8 with invalid sequences replaced.
pub open spec fn lossy_text(bytes: Seq<u8>) -> Seq<char> {
    if valid_utf8(bytes) {
        decode_utf8(bytes)
    } else {
        utf8_repaired(bytes)
    }
}

/// Calls `String::from_utf8_lossy`. Valid UTF-8 comes back as the string it
/// encodes; of other input the contract says only that the result is a
/// function of the bytes.
#[verifier::external_body]
pub(crate) fn decode_lossy(bytes: &[u8]) -> (s: String)
    ensures
        valid_utf8(bytes@) ==> s@ == decode_utf8(bytes@),
        !valid_utf8(bytes@) ==> s@ == utf8_repaired(bytes@),
{
    String::from_utf8_lossy(bytes).into_owned()
}

/// A JSON number as serde_json holds it.
#[verifier::external_type_specification]
#[verifier::external_body]
pub struct ExJsonNumber(serde_json::Number);

/// The number that rmp-serde reads from the MessagePack bytes `encoded`, or
/// `None` where they hold no number that JSON has.
pub uninterp spec fn unpacked(encoded: Seq<u8>) -> Option<serde_json::Number>;

/// The JSON text that serde_json prints for `number`; empty where it cannot
/// print it.
pub uninterp spec fn printed(number: serde_json::Number) -> Seq<char>;

/// The number that serde_json parses from `text`, or `None` where `text` is
/// no JSON number.
pub uninterp spec fn parsed(text: Seq<char>) -> Option<serde_json::Number>;

/// The MessagePack bytes that rmp-serde writes for `number`, or `None`
/// where it cannot write it.
pub uninterp spec fn packed(number: serde_json::Number) -> Option<Seq<u8>>;

/// Calls `rmp_serde::from_slice` for a `serde_json::Number`. The contract
/// only names the result: the same bytes always give the same number.
#[verifier::external_body]
pub(crate) fn unpack_number(encoded: &[u8]) -> (r: Option<serde_json::Number>)
    ensures
        r == unpacked(encoded@),
{
    rmp_serde::from_slice::<serde_json::Number>(encoded).ok()
}

/// Calls `serde_json::to_string` on a number. The contract only names the
/// result.
#[verifier::external_body]
pub(crate) fn print_number(number: &serde_json::Number) -> (s: String)
    ensures
        s@ == printed(*number),
{
    serde_json::to_string(number).unwrap_or_default()
}

/// Calls `serde_json::from_str` for a `serde_json::Number`. The contract
/// only names the result.
#[verifier::external_body]
pub(crate) fn parse_number(text: &str) -> (r: Option<serde_json::Number>)
    ensures
        r == parsed(text@),
{
    serde_json::from_str::<serde_json::Number>(text).ok()
}

/// Calls `rmp_serde::to_vec` on a number. The contract only names the
/// result.
#[verifier::external_body]
pub(crate) fn pack_number(number: &serde_json::Number) -> (r: Option<Vec<u8>>)
    ensures
        match r {
            Some(bytes) => packed(*number) == Some(bytes@),
            None => packed(*number) is None,
        },
{
    rmp_serde::to_vec(number).ok()
}

/// The error type of the base64 crate's decoder.
#[verifier::external_type_specification]
#[verifier::external_body]
pub struct ExBase64DecodeError(base64::DecodeError);

/// The bytes that the base64 crate's `STANDARD` engine decodes `text` to,
/// or `None` where it refuses `text`.
pub uninterp spec fn base64_decoding(text: Seq<char>) -> Option<Seq<u8>>;

/// The text that the base64 crate's `STANDARD` engine encodes `bytes` to.
pub uninterp spec fn base64_encoding(bytes: Seq<u8>) -> Seq<char>;

/// Calls `Engine::decode` on the `STANDARD` engine. That engine asks for
/// canonical padding and refuses stray trailing bits, so a text that it
/// accepts is the very text that it encodes the decoded bytes to.
#[verifier::external_body]
pub(crate) fn base64_decode(text: &str) -> (r: Result<Vec<u8>, base64::DecodeError>)
    ensures
        match r {
            Ok(bytes) => base64_decoding(text@) == Some(bytes@) && base64_encoding(bytes@)
                == text@,
            Err(e) => base64_decoding(text@) is None,
        },
{
    base64::Engine::decode(&base64::engine::general_purpose::STANDARD, text)
}

/// Whether the base64 text for `len` bytes, padding included, has a length
/// that `usize` holds.
pub open spec fn base64_fits(len: nat) -> bool {
    len / 3 < usize::MAX / 4
}

/// Calls `Engine::encode` on the `STANDARD` engine, which panics where the
/// length of the text overflows.
#[verifier::external_body]
pub(crate) fn base64_encode(bytes: &[u8]) -> (s: String)
    requires
        base64_fits(bytes@.len()),
    ensures
        s@ == base64_encoding(bytes@),
{
    base64::Engine::encode(&base64::engine::general_purpose::STANDARD, bytes)
}

} // verus!
