//! What can go wrong on the way between base64, hex, MessagePack and JSON.

use crate::cursor::UnpackError;
use crate::encoder::EncodeError;
use vstd::prelude::*;

verus! {

/// Why a conversion failed.
#[derive(Debug, Clone, Copy, PartialEq, Eq, Structural)]
pub enum ConvertError {
    /// The text is no base64 with canonical padding.
    InvalidBase64,
    /// The dump has an odd number of digits or a character that is none.
    InvalidHex,
    /// The bytes are no MessagePack.
    Msgpack(UnpackError),
    /// The text is no JSON.
    JsonParse,
    /// The value nests too deep to be printed.
    JsonSerialize,
    /// The value cannot go into MessagePack, or its bytes not into base64.
    Encode(EncodeError),
}

/// What the user is told about `e`.
pub open spec fn message_text(e: ConvertError) -> Seq<char> {
    match e {
        ConvertError::InvalidBase64 => "Invalid Base64 string"@,
        ConvertError::InvalidHex => "Invalid hex string: digits must come in pairs"@,
        ConvertError::Msgpack(UnpackError::TruncatedData) =>
            "Failed to decode msgpack: unexpected end of data"@,
        ConvertError::Msgpack(UnpackError::UnknownFormatByte) =>
            "Failed to decode msgpack: unknown format byte"@,
        ConvertError::Msgpack(UnpackError::NestingTooDeep) =>
            "Failed to decode msgpack: nesting too deep"@,
        ConvertError::JsonParse => "Failed to parse JSON"@,
        ConvertError::JsonSerialize => "Failed to serialize JSON: nesting too deep"@,
        ConvertError::Encode(EncodeError::TooLong) => "Failed to encode msgpack: value too long"@,
    }
}

impl ConvertError {
    /// What the user is told about this error.
    pub fn message(&self) -> (text: String)
        ensures
            text@ == message_text(*self),
    {
        let literal = match self {
            ConvertError::InvalidBase64 => "Invalid Base64 string",
            ConvertError::InvalidHex => "Invalid hex string: digits must come in pairs",
            ConvertError::Msgpack(UnpackError::TruncatedData) =>
                "Failed to decode msgpack: unexpected end of data",
            ConvertError::Msgpack(UnpackError::UnknownFormatByte) =>
                "Failed to decode msgpack: unknown format byte",
            ConvertError::Msgpack(UnpackError::NestingTooDeep) =>
                "Failed to decode msgpack: nesting too deep",
            ConvertError::JsonParse => "Failed to parse JSON",
            ConvertError::JsonSerialize => "Failed to serialize JSON: nesting too deep",
            ConvertError::Encode(EncodeError::TooLong) =>
                "Failed to encode msgpack: value too long",
        };
        literal.to_owned()
    }
}

} // verus!
