//! The conversions between the three forms of a document: MessagePack in
//! base64, MessagePack as a hex dump, and JSON text.

use crate::boundary::{
    base64_decode, base64_decoding, base64_encode, base64_encoding, base64_fits,
};
use crate::decoder::{decode_value, parse_msgpack_value};
use crate::encoder::{encode, encode_bytes, EncodeError};
use crate::error::ConvertError;
use crate::format::{to_chars, to_text};
use crate::hex::{bytes_to_hex, hex_decode, hex_decode_inverts_hex_text, hex_text, hex_to_bytes};
use crate::json::{pretty_text, to_json};
use crate::parser::{document, from_json};
use crate::position_mapper::{
    byte_range_to_hex_char_range, covers, create_position_mappings,
    find_hex_range_for_json_selection, hex_char_range, untouched, walk_value, PositionMapping,
};
use crate::value::MAX_DEPTH;
use vstd::prelude::*;

verus! {

/// The pretty JSON text for the MessagePack value that `base64` holds.
pub open spec fn msgpack_json_text(base64: Seq<char>) -> Result<Seq<char>, ConvertError> {
    match base64_decoding(base64) {
        None => Err(ConvertError::InvalidBase64),
        Some(bytes) => match decode_value(bytes, 0, MAX_DEPTH as nat) {
            Err(e) => Err(ConvertError::Msgpack(e)),
            Ok((v, end)) => Ok(pretty_text(v, 0)),
        },
    }
}

/// The base64 text of the MessagePack bytes for the value that `json`
/// spells.
pub open spec fn json_msgpack_text(json: Seq<char>) -> Result<Seq<char>, ConvertError> {
    match document(json) {
        None => Err(ConvertError::JsonParse),
        Some(v) => if v.encodable() && base64_fits(encode_bytes(v).len()) {
            Ok(base64_encoding(encode_bytes(v)))
        } else {
            Err(ConvertError::Encode(EncodeError::TooLong))
        },
    }
}

/// The hex dump of the bytes that `base64` holds.
pub open spec fn base64_hex_text(base64: Seq<char>) -> Result<Seq<char>, ConvertError> {
    match base64_decoding(base64) {
        None => Err(ConvertError::InvalidBase64),
        Some(bytes) => Ok(hex_text(bytes, bytes.len())),
    }
}

/// The base64 text of the bytes that the dump `hex` stands for.
pub open spec fn hex_base64_text(hex: Seq<char>) -> Result<Seq<char>, ConvertError> {
    match hex_decode(hex) {
        None => Err(ConvertError::InvalidHex),
        Some(bytes) => Ok(base64_encoding(bytes)),
    }
}

/// Whether the outcome `r` is what the model `m` asks for.
pub open spec fn text_is(
    r: Result<String, ConvertError>,
    m: Result<Seq<char>, ConvertError>,
) -> bool {
    match m {
        Ok(text) => r matches Ok(s) && s@ == text,
        Err(e) => r == Err::<String, ConvertError>(e),
    }
}

/// Decodes MessagePack given in base64 and prints it as pretty JSON.
///
/// Fails with `InvalidBase64` where the text is no base64, and with
/// `Msgpack` where the bytes are no MessagePack. Bytes behind the first
/// value are not looked at.
pub fn msgpack_to_json(base64_string: &str) -> (r: Result<String, ConvertError>)
    ensures
        text_is(r, msgpack_json_text(base64_string@)),
{
    let bytes = match base64_decode(base64_string) {
        Ok(bytes) => bytes,
        Err(e) => {
            return Err(ConvertError::InvalidBase64);
        },
    };
    let (v, end) = match parse_msgpack_value(bytes.as_slice(), 0) {
        Ok(found) => found,
        Err(e) => {
            return Err(ConvertError::Msgpack(e));
        },
    };
    to_json(&v)
}

/// Parses JSON text and encodes the value as MessagePack in base64.
///
/// Fails with `JsonParse` where the text is no JSON, and with `Encode` where
/// a string or a container is too long for MessagePack.
pub fn json_to_msgpack(json_string: &str) -> (r: Result<String, ConvertError>)
    ensures
        text_is(r, json_msgpack_text(json_string@)),
{
    let v = from_json(json_string)?;
    let bytes = match encode(&v) {
        Ok(bytes) => bytes,
        Err(e) => {
            return Err(ConvertError::Encode(e));
        },
    };
    if bytes.len() / 3 >= usize::MAX / 4 {
        return Err(ConvertError::Encode(EncodeError::TooLong));
    }
    Ok(base64_encode(bytes.as_slice()))
}

/// Decodes base64 and dumps the bytes in hex, two upper-case digits per byte
/// and a space between bytes.
///
/// Fails with `InvalidBase64` where the text is no base64. Turning the dump
/// back with [`hex_to_base64`] gives the text that was put in.
pub fn base64_to_hex(base64_string: &str) -> (r: Result<String, ConvertError>)
    ensures
        text_is(r, base64_hex_text(base64_string@)),
        r matches Ok(hex) ==> hex_base64_text(hex@) == Ok::<Seq<char>, ConvertError>(
            base64_string@,
        ),
{
    let bytes = match base64_decode(base64_string) {
        Ok(bytes) => bytes,
        Err(e) => {
            return Err(ConvertError::InvalidBase64);
        },
    };
    let dump = bytes_to_hex(bytes.as_slice());
    proof {
        hex_decode_inverts_hex_text(bytes@);
    }
    Ok(to_text(dump.as_slice()))
}

/// Reads a hex dump and encodes its bytes in base64. White space in the dump
/// counts for nothing.
///
/// Fails with `InvalidHex` where the dump has an odd number of digits or a
/// character that is neither a hexadecimal digit nor white space.
pub fn hex_to_base64(hex_string: &str) -> (r: Result<String, ConvertError>)
    ensures
        text_is(r, hex_base64_text(hex_string@)),
{
    let text = to_chars(hex_string);
    let bytes = match hex_to_bytes(text.as_slice()) {
        Some(bytes) => bytes,
        None => {
            return Err(ConvertError::InvalidHex);
        },
    };
    assert(base64_fits(bytes@.len())) by {
        assert(2 * bytes@.len() <= text@.len());
        assert(text@.len() == text.len());
        assert(usize::MAX >= 0xffff_ffff);
    }
    Ok(base64_encode(bytes.as_slice()))
}

/// The mappings between the MessagePack value that `base64` holds and the
/// text `json`; none where `base64` is no base64 or its bytes cannot be
/// decoded.
pub open spec fn selection_mappings(base64: Seq<char>, json: Seq<char>) -> Seq<PositionMapping> {
    match base64_decoding(base64) {
        None => Seq::empty(),
        Some(bytes) => match walk_value(bytes, json, 0, 0, MAX_DEPTH as nat, Seq::empty()) {
            Ok((maps, hex_end, json_end)) => maps,
            Err(e) => Seq::empty(),
        },
    }
}

/// Whether the characters of a hex dump can be counted for the byte range
/// `hex_start..hex_end`: it holds a byte, and three times its bounds fit in
/// `usize`.
pub open spec fn dump_range_fits(hex_start: int, hex_end: int) -> bool {
    hex_start * 3 <= usize::MAX && 1 <= hex_end && hex_end * 3 <= usize::MAX
}

/// The characters to mark in the hex dump of the MessagePack value that
/// `base64` holds, for the selection `sel_start..sel_end` in its JSON text
/// `json`: the span in the dump of the smallest byte range that covers every
/// mapping which the selection overlaps.
///
/// `None` where a text or the selection is empty, where `base64` cannot be
/// decoded, where the selection overlaps no mapping, and where the span
/// cannot be counted.
pub fn selection_to_hex_range(base64: &str, json: &str, sel_start: usize, sel_end: usize) -> (r:
    Option<(usize, usize)>)
    ensures
        match r {
            Some((char_start, char_end)) => base64@.len() > 0 && json@.len() > 0 && sel_start
                != sel_end && exists|hex_start: int, hex_end: int|
                #![trigger hex_char_range(hex_start, hex_end)]
                covers(
                    selection_mappings(base64@, json@),
                    sel_start as int,
                    sel_end as int,
                    hex_start,
                    hex_end,
                ) && dump_range_fits(hex_start, hex_end) && (char_start as int, char_end as int)
                    == hex_char_range(hex_start, hex_end),
            None => base64@.len() == 0 || json@.len() == 0 || sel_start == sel_end || untouched(
                selection_mappings(base64@, json@),
                sel_start as int,
                sel_end as int,
            ) || exists|hex_start: int, hex_end: int|
                #![trigger dump_range_fits(hex_start, hex_end)]
                covers(
                    selection_mappings(base64@, json@),
                    sel_start as int,
                    sel_end as int,
                    hex_start,
                    hex_end,
                ) && !dump_range_fits(hex_start, hex_end),
        },
{
    if base64.unicode_len() == 0 || json.unicode_len() == 0 || sel_start == sel_end {
        return None;
    }
    let bytes = match base64_decode(base64) {
        Ok(bytes) => bytes,
        Err(e) => {
            return None;
        },
    };
    let mappings = create_position_mappings(bytes.as_slice(), json);
    match find_hex_range_for_json_selection(mappings.as_slice(), sel_start, sel_end) {
        None => None,
        Some((hex_start, hex_end)) => {
            if hex_start > usize::MAX / 3 || hex_end == 0 || hex_end > usize::MAX / 3 {
                assert(!dump_range_fits(hex_start as int, hex_end as int));
                return None;
            }
            assert(dump_range_fits(hex_start as int, hex_end as int));
            let r = byte_range_to_hex_char_range(hex_start, hex_end);
            assert((r.0 as int, r.1 as int) == hex_char_range(hex_start as int, hex_end as int));
            Some(r)
        },
    }
}

} // verus!
