//! Conversion between MessagePack bytes and JSON text, with a map from
//! positions in the printed JSON back to the bytes they were decoded from.

pub mod boundary;
pub mod consistency;
pub mod converter;
pub mod cursor;
pub mod decoder;
pub mod encoder;
pub mod error;
pub mod fidelity;
pub mod format;
pub mod hex;
pub mod highlighter;
pub mod json;
pub mod parser;
pub mod plain_markup;
pub mod position_mapper;
pub mod reading;
pub mod roundtrip;
pub mod seqs;
pub mod value;
