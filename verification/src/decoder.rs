//! The MessagePack decoder: from a byte buffer to a value tree.

use crate::boundary::{decode_lossy, lossy_text};
use crate::cursor::{be_uint, field, safe_array, safe_byte, UnpackError};
use crate::format::to_text;
use crate::json::{compact_text, write_compact};
use crate::value::{
    entries_model, insert_entry, is_finite_bits, lemma_array_view, lemma_entries_model,
    lemma_insert_nests, lemma_insert_valid, object_insert, Json, Value, MAX_DEPTH,
};
use vstd::slice::slice_subrange;
use vstd::arithmetic::power2::{lemma2_to64, lemma_pow2_unfold, pow2};
use vstd::prelude::*;

verus! {

/// The format families of MessagePack. `prefix` and `width` count the bytes
/// that follow the leading byte and hold a length or a number.
#[derive(Debug, Clone, Copy, PartialEq, Eq, Structural)]
pub enum Format {
    PositiveFixInt,
    NegativeFixInt,
    FixMap,
    FixArray,
    FixStr,
    Nil,
    False,
    True,
    Bin { prefix: usize },
    Float32,
    Float64,
    UInt { width: usize },
    Int { width: usize },
    LongStr { prefix: usize },
    LongArray { prefix: usize },
    LongMap { prefix: usize },
    Unknown,
}

/// The format family that the leading byte `b` belongs to.
pub open spec fn format_of(b: u8) -> Format {
    if b <= 0x7f {
        Format::PositiveFixInt
    } else if b <= 0x8f {
        Format::FixMap
    } else if b <= 0x9f {
        Format::FixArray
    } else if b <= 0xbf {
        Format::FixStr
    } else if b >= 0xe0 {
        Format::NegativeFixInt
    } else if b == 0xc0 {
        Format::Nil
    } else if b == 0xc2 {
        Format::False
    } else if b == 0xc3 {
        Format::True
    } else if b == 0xc4 {
        Format::Bin { prefix: 1 }
    } else if b == 0xc5 {
        Format::Bin { prefix: 2 }
    } else if b == 0xc6 {
        Format::Bin { prefix: 4 }
    } else if b == 0xca {
        Format::Float32
    } else if b == 0xcb {
        Format::Float64
    } else if b == 0xcc {
        Format::UInt { width: 1 }
    } else if b == 0xcd {
        Format::UInt { width: 2 }
    } else if b == 0xce {
        Format::UInt { width: 4 }
    } else if b == 0xcf {
        Format::UInt { width: 8 }
    } else if b == 0xd0 {
        Format::Int { width: 1 }
    } else if b == 0xd1 {
        Format::Int { width: 2 }
    } else if b == 0xd2 {
        Format::Int { width: 4 }
    } else if b == 0xd3 {
        Format::Int { width: 8 }
    } else if b == 0xd9 {
        Format::LongStr { prefix: 1 }
    } else if b == 0xda {
        Format::LongStr { prefix: 2 }
    } else if b == 0xdb {
        Format::LongStr { prefix: 4 }
    } else if b == 0xdc {
        Format::LongArray { prefix: 2 }
    } else if b == 0xdd {
        Format::LongArray { prefix: 4 }
    } else if b == 0xde {
        Format::LongMap { prefix: 2 }
    } else if b == 0xdf {
        Format::LongMap { prefix: 4 }
    } else {
        Format::Unknown
    }
}

/// The format family that the leading byte `b` belongs to.
pub fn classify(b: u8) -> (f: Format)
    ensures
        f == format_of(b),
{
    if b <= 0x7f {
        Format::PositiveFixInt
    } else if b <= 0x8f {
        Format::FixMap
    } else if b <= 0x9f {
        Format::FixArray
    } else if b <= 0xbf {
        Format::FixStr
    } else if b >= 0xe0 {
        Format::NegativeFixInt
    } else {
        match b {
            0xc0 => Format::Nil,
            0xc2 => Format::False,
            0xc3 => Format::True,
            0xc4 => Format::Bin { prefix: 1 },
            0xc5 => Format::Bin { prefix: 2 },
            0xc6 => Format::Bin { prefix: 4 },
            0xca => Format::Float32,
            0xcb => Format::Float64,
            0xcc => Format::UInt { width: 1 },
            0xcd => Format::UInt { width: 2 },
            0xce => Format::UInt { width: 4 },
            0xcf => Format::UInt { width: 8 },
            0xd0 => Format::Int { width: 1 },
            0xd1 => Format::Int { width: 2 },
            0xd2 => Format::Int { width: 4 },
            0xd3 => Format::Int { width: 8 },
            0xd9 => Format::LongStr { prefix: 1 },
            0xda => Format::LongStr { prefix: 2 },
            0xdb => Format::LongStr { prefix: 4 },
            0xdc => Format::LongArray { prefix: 2 },
            0xdd => Format::LongArray { prefix: 4 },
            0xde => Format::LongMap { prefix: 2 },
            0xdf => Format::LongMap { prefix: 4 },
            _ => Format::Unknown,
        }
    }
}

/// 256 to the power `width`, for the widths of MessagePack's fields.
pub open spec fn field_limit(width: int) -> int {
    if width <= 0 {
        1
    } else if width == 1 {
        0x100
    } else if width == 2 {
        0x1_0000
    } else if width == 3 {
        0x100_0000
    } else if width == 4 {
        0x1_0000_0000
    } else if width == 5 {
        0x100_0000_0000
    } else if width == 6 {
        0x1_0000_0000_0000
    } else if width == 7 {
        0x100_0000_0000_0000
    } else {
        0x1_0000_0000_0000_0000
    }
}

/// The number that the two's complement pattern `n` of `width` bytes stands
/// for.
pub open spec fn signed_of(n: nat, width: int) -> int {
    if 2 * n >= field_limit(width) {
        n - field_limit(width)
    } else {
        n as int
    }
}

/// A number of at most eight bytes is below 256 to the power of its width.
pub proof fn lemma_be_uint_bound(bytes: Seq<u8>)
    requires
        bytes.len() <= 8,
    ensures
        be_uint(bytes) < field_limit(bytes.len() as int),
    decreases bytes.len(),
{
    if bytes.len() > 0 {
        lemma_be_uint_bound(bytes.drop_last());
    }
}

/// The number in the `width` bytes of `data` from `start`.
pub fn read_be(data: &[u8], start: usize, width: usize) -> (n: u64)
    requires
        width <= 8,
        start + width <= data.len(),
    ensures
        n == be_uint(data@.subrange(start as int, start + width)),
{
    let mut n: u64 = 0;
    let mut i: usize = 0;
    while i < width
        invariant
            i <= width <= 8,
            start + width <= data.len(),
            n == be_uint(data@.subrange(start as int, start + i)),
        decreases width - i,
    {
        let ghost before = data@.subrange(start as int, start + i);
        let ghost after = data@.subrange(start as int, start + i + 1);
        proof {
            lemma_be_uint_bound(before);
            assert(after.drop_last() =~= before);
            assert(after.last() == data@[start + i]);
        }
        n = n * 256 + data[start + i] as u64;
        i += 1;
    }
    n
}

/// The bits of the binary64 number equal to the subnormal binary32 number
/// with the fraction field `frac`, as a fraction field that has its leading
/// one at bit 23 and the binary64 exponent field that goes with it.
pub open spec fn normalized(frac: nat, exponent: int) -> (nat, int)
    decreases 0x100_0000 - frac,
{
    if frac == 0 || frac >= 0x80_0000 {
        (frac, exponent)
    } else {
        normalized(frac * 2, exponent - 1)
    }
}

/// The bits of the binary64 number that equals the finite binary32 number
/// with the bits `b`.
pub open spec fn widen_float_bits(b: nat) -> int {
    let sign = b / 0x8000_0000;
    let exponent = (b / 0x80_0000) % 0x100;
    let frac = b % 0x80_0000;
    let magnitude: int = if exponent == 0 {
        if frac == 0 {
            0
        } else {
            let (f, e) = normalized(frac, 897);
            e * 0x10_0000_0000_0000 + (f - 0x80_0000) * 0x2000_0000
        }
    } else {
        ((exponent + 896) * 0x10_0000_0000_0000 + frac * 0x2000_0000) as int
    };
    sign * 0x8000_0000_0000_0000 + magnitude
}

/// The value of a float32 field with the bits `b`: zero where the number is
/// not finite.
pub open spec fn float32_value(b: nat) -> Json {
    if (b / 0x80_0000) % 0x100 == 0xff {
        Json::Int(0)
    } else {
        Json::Float(widen_float_bits(b) as u64)
    }
}

/// The value of a float64 field with the bits `b`: zero where the number is
/// not finite.
pub open spec fn float64_value(b: nat) -> Json {
    if is_finite_bits(b as u64) {
        Json::Float(b as u64)
    } else {
        Json::Int(0)
    }
}

/// The bits of the binary64 number that equals the finite binary32 number
/// with the bits `b`.
fn widen_float(b: u32) -> (r: u64)
    requires
        (b as nat / 0x80_0000) % 0x100 != 0xff,
    ensures
        r == widen_float_bits(b as nat),
        is_finite_bits(r),
{
    let sign: u64 = (b / 0x8000_0000) as u64;
    let exponent: u64 = ((b / 0x80_0000) % 0x100) as u64;
    let frac: u64 = (b % 0x80_0000) as u64;
    let magnitude: u64 = if exponent == 0 {
        if frac == 0 {
            0
        } else {
            let mut f: u64 = frac;
            let mut k: u64 = 0;
            proof {
                lemma2_to64();
            }
            while f < 0x80_0000
                invariant
                    k <= 23,
                    1 <= f < 0x100_0000,
                    f >= pow2(k as nat),
                    normalized(frac as nat, 897) == normalized(f as nat, 897 - k),
                decreases 0x100_0000 - f,
            {
                proof {
                    lemma2_to64();
                    lemma_pow2_unfold((k + 1) as nat);
                    if k == 23 {
                        assert(pow2(23) == 0x80_0000);
                    }
                }
                f = f * 2;
                k = k + 1;
            }
            let e: u64 = 897 - k;
            e * 0x10_0000_0000_0000 + (f - 0x80_0000) * 0x2000_0000
        }
    } else {
        (exponent + 896) * 0x10_0000_0000_0000 + frac * 0x2000_0000
    };
    let r: u64 = sign * 0x8000_0000_0000_0000 + magnitude;
    assert(is_finite_bits(r)) by {
        assert(magnitude < 0x8000_0000_0000_0000);
        assert(magnitude / 0x10_0000_0000_0000 < 0x7ff);
        assert(sign == 0 || sign == 1);
    }
    r
}

/// Number of bytes after the leading byte that hold the length of a value
/// of family `f`.
pub open spec fn prefix_width(f: Format) -> int {
    match f {
        Format::Bin { prefix } => prefix as int,
        Format::LongStr { prefix } => prefix as int,
        Format::LongArray { prefix } => prefix as int,
        Format::LongMap { prefix } => prefix as int,
        _ => 0,
    }
}

/// The length or count that the value at `pos` declares, and where its body
/// starts. The fix families hold it in the low bits of the leading byte, the
/// others in the bytes after it.
pub open spec fn declared_len(data: Seq<u8>, pos: int) -> Result<(nat, int), UnpackError> {
    let b = data[pos];
    let f = format_of(b);
    match f {
        Format::FixMap => Ok(((b % 16) as nat, pos + 1)),
        Format::FixArray => Ok(((b % 16) as nat, pos + 1)),
        Format::FixStr => Ok(((b % 32) as nat, pos + 1)),
        _ => match field(data, pos + 1, prefix_width(f)) {
            Some(bytes) => Ok((be_uint(bytes), pos + 1 + prefix_width(f))),
            None => Err(UnpackError::TruncatedData),
        },
    }
}

/// The string that a map key becomes as the key of an object: a string is
/// taken as it is, any other value as its compact JSON text.
pub open spec fn key_text(key: Json) -> Seq<char> {
    match key {
        Json::Str(s) => s,
        _ => compact_text(key),
    }
}

/// The value that starts at `pos`, and the position after it. Containers may
/// still nest `depth` levels below this point.
pub open spec fn decode_value(data: Seq<u8>, pos: int, depth: nat) -> Result<
    (Json, int),
    UnpackError,
>
    decreases depth, 0nat,
{
    if pos < 0 || pos >= data.len() {
        Err(UnpackError::TruncatedData)
    } else {
        let b = data[pos];
        match format_of(b) {
            Format::PositiveFixInt => Ok((Json::Int(b as int), pos + 1)),
            Format::NegativeFixInt => Ok((Json::Int(b - 0x100), pos + 1)),
            Format::Nil => Ok((Json::Null, pos + 1)),
            Format::False => Ok((Json::Bool(false), pos + 1)),
            Format::True => Ok((Json::Bool(true), pos + 1)),
            Format::Float32 => match field(data, pos + 1, 4) {
                Some(bytes) => Ok((float32_value(be_uint(bytes)), pos + 5)),
                None => Err(UnpackError::TruncatedData),
            },
            Format::Float64 => match field(data, pos + 1, 8) {
                Some(bytes) => Ok((float64_value(be_uint(bytes)), pos + 9)),
                None => Err(UnpackError::TruncatedData),
            },
            Format::UInt { width } => match field(data, pos + 1, width as int) {
                Some(bytes) => Ok((Json::Int(be_uint(bytes) as int), pos + 1 + width)),
                None => Err(UnpackError::TruncatedData),
            },
            Format::Int { width } => match field(data, pos + 1, width as int) {
                Some(bytes) => Ok(
                    (Json::Int(signed_of(be_uint(bytes), width as int)), pos + 1 + width),
                ),
                None => Err(UnpackError::TruncatedData),
            },
            Format::Unknown => Err(UnpackError::UnknownFormatByte),
            Format::FixStr | Format::LongStr { .. } => match declared_len(data, pos) {
                Err(e) => Err(e),
                Ok((len, start)) => match field(data, start, len as int) {
                    Some(bytes) => Ok((Json::Str(lossy_text(bytes)), start + len)),
                    None => Err(UnpackError::TruncatedData),
                },
            },
            Format::Bin { .. } => match declared_len(data, pos) {
                Err(e) => Err(e),
                Ok((len, start)) => match field(data, start, len as int) {
                    Some(bytes) => Ok((Json::Null, start + len)),
                    None => Err(UnpackError::TruncatedData),
                },
            },
            Format::FixArray | Format::LongArray { .. } => match declared_len(data, pos) {
                Err(e) => Err(e),
                Ok((count, start)) => if depth == 0 {
                    Err(UnpackError::NestingTooDeep)
                } else {
                    match decode_items(data, start, count, (depth - 1) as nat, Seq::empty()) {
                        Ok((items, end)) => Ok((Json::Array(items), end)),
                        Err(e) => Err(e),
                    }
                },
            },
            Format::FixMap | Format::LongMap { .. } => match declared_len(data, pos) {
                Err(e) => Err(e),
                Ok((count, start)) => if depth == 0 {
                    Err(UnpackError::NestingTooDeep)
                } else {
                    match decode_entries(data, start, count, (depth - 1) as nat, Seq::empty()) {
                        Ok((entries, end)) => Ok((Json::Object(entries), end)),
                        Err(e) => Err(e),
                    }
                },
            },
        }
    }
}

/// `acc` followed by the `count` values that start at `pos`, and the position
/// after them.
pub open spec fn decode_items(
    data: Seq<u8>,
    pos: int,
    count: nat,
    depth: nat,
    acc: Seq<Json>,
) -> Result<(Seq<Json>, int), UnpackError>
    decreases depth, count + 1,
{
    if count == 0 {
        Ok((acc, pos))
    } else {
        match decode_value(data, pos, depth) {
            Err(e) => Err(e),
            Ok((item, next)) => decode_items(data, next, (count - 1) as nat, depth, acc.push(item)),
        }
    }
}

/// `acc` after the `count` pairs of key and value that start at `pos` have
/// been set in it one after the other, and the position after them.
pub open spec fn decode_entries(
    data: Seq<u8>,
    pos: int,
    count: nat,
    depth: nat,
    acc: Seq<(Seq<char>, Json)>,
) -> Result<(Seq<(Seq<char>, Json)>, int), UnpackError>
    decreases depth, count + 1,
{
    if count == 0 {
        Ok((acc, pos))
    } else {
        match decode_value(data, pos, depth) {
            Err(e) => Err(e),
            Ok((key, mid)) => match decode_value(data, mid, depth) {
                Err(e) => Err(e),
                Ok((value, next)) => decode_entries(
                    data,
                    next,
                    (count - 1) as nat,
                    depth,
                    object_insert(acc, key_text(key), value),
                ),
            },
        }
    }
}

/// Number of bytes that a number of family `f` has after its leading byte;
/// 0 for the other families.
pub open spec fn number_width(f: Format) -> int {
    match f {
        Format::Float32 => 4,
        Format::Float64 => 8,
        Format::UInt { width } => width as int,
        Format::Int { width } => width as int,
        _ => 0,
    }
}

/// A number whose bytes reach past the end of the buffer is reported as
/// truncated: a float64 tag, say, with fewer than eight bytes behind it.
pub proof fn short_number_is_truncated(data: Seq<u8>, pos: int, depth: nat)
    requires
        0 <= pos < data.len(),
        data.len() - (pos + 1) < number_width(format_of(data[pos])),
    ensures
        decode_value(data, pos, depth) == Err::<(Json, int), UnpackError>(
            UnpackError::TruncatedData,
        ),
{
}

/// Whether the outcome `r` of the decoder is what the model `m` asks for.
pub open spec fn decoded_as(
    r: Result<(Value, usize), UnpackError>,
    m: Result<(Json, int), UnpackError>,
) -> bool {
    match m {
        Ok((json, end)) => r matches Ok((v, e)) && v@ == json && e == end,
        Err(e) => r == Err::<(Value, usize), UnpackError>(e),
    }
}

/// Reads the length or count that the value at `pos` declares.
pub fn read_len(data: &[u8], pos: usize) -> (r: Result<(usize, usize), UnpackError>)
    requires
        pos < data.len(),
    ensures
        match declared_len(data@, pos as int) {
            Ok((len, start)) => r == Ok::<(usize, usize), UnpackError>(
                (len as usize, start as usize),
            ) && len <= 0xffff_ffff && pos < start <= data.len(),
            Err(e) => r == Err::<(usize, usize), UnpackError>(e),
        },
{
    let b = data[pos];
    let width: usize = match classify(b) {
        Format::FixMap => {
            return Ok(((b % 16) as usize, pos + 1));
        },
        Format::FixArray => {
            return Ok(((b % 16) as usize, pos + 1));
        },
        Format::FixStr => {
            return Ok(((b % 32) as usize, pos + 1));
        },
        Format::Bin { prefix } => prefix,
        Format::LongStr { prefix } => prefix,
        Format::LongArray { prefix } => prefix,
        Format::LongMap { prefix } => prefix,
        _ => 0,
    };
    if width > data.len() - (pos + 1) {
        return Err(UnpackError::TruncatedData);
    }
    let n = read_be(data, pos + 1, width);
    proof {
        lemma_be_uint_bound(data@.subrange(pos + 1, pos + 1 + width));
    }
    Ok((n as usize, pos + 1 + width))
}

/// The string that a map key becomes as the key of an object.
pub fn key_string(key: Value) -> (s: String)
    ensures
        s@ == key_text(key@),
{
    match key {
        Value::Str(s) => s,
        other => {
            let mut out: Vec<char> = Vec::new();
            write_compact(&other, &mut out);
            to_text(out.as_slice())
        },
    }
}

/// Decodes `count` values in a row from `start`.
#[verifier::rlimit(30)]
fn decode_array_body(data: &[u8], start: usize, count: usize, depth: usize) -> (r: Result<
    (Vec<Value>, usize),
    UnpackError,
>)
    requires
        start <= data.len(),
    ensures
        match decode_items(data@, start as int, count as nat, depth as nat, Seq::empty()) {
            Ok((items, end)) => r matches Ok((v, e)) && Value::Array(v)@ == Json::Array(items)
                && e == end && start <= e <= data.len() && Value::Array(v).well_formed()
                && Value::Array(v)@.nests_within(depth + 1),
            Err(e) => r == Err::<(Vec<Value>, usize), UnpackError>(e),
        },
    decreases depth, 1nat,
{
    let mut items: Vec<Value> = Vec::new();
    let ghost mut acc: Seq<Json> = Seq::empty();
    let mut cur: usize = start;
    let mut i: usize = 0;
    while i < count
        invariant
            i <= count,
            start <= cur <= data.len(),
            acc.len() == items.len(),
            forall|k: int| 0 <= k < items.len() ==> (#[trigger] acc[k]) == items[k]@,
            forall|k: int| 0 <= k < items.len() ==> (#[trigger] items[k]).well_formed(),
            forall|k: int| 0 <= k < acc.len() ==> (#[trigger] acc[k]).nests_within(depth as int),
            decode_items(data@, start as int, count as nat, depth as nat, Seq::empty())
                == decode_items(data@, cur as int, (count - i) as nat, depth as nat, acc),
        decreases count - i,
    {
        let (item, next) = decode_at(data, cur, depth)?;
        proof {
            acc = acc.push(item@);
        }
        items.push(item);
        cur = next;
        i += 1;
    }
    proof {
        let v = Value::Array(items);
        lemma_array_view(v);
        assert(v@->Array_0 =~= acc);
        assert forall|k: int| 0 <= k < acc.len() implies (#[trigger] acc[k]).valid() by {
            assert(items[k].well_formed());
        }
    }
    Ok((items, cur))
}

/// Decodes `count` pairs of key and value in a row from `start`.
#[verifier::rlimit(30)]
fn decode_map_body(data: &[u8], start: usize, count: usize, depth: usize) -> (r: Result<
    (Vec<(String, Value)>, usize),
    UnpackError,
>)
    requires
        start <= data.len(),
    ensures
        match decode_entries(data@, start as int, count as nat, depth as nat, Seq::empty()) {
            Ok((entries, end)) => r matches Ok((v, e)) && Value::Object(v)@ == Json::Object(
                entries,
            ) && e == end && start <= e <= data.len() && Value::Object(v).well_formed()
                && Value::Object(v)@.nests_within(depth + 1),
            Err(e) => r == Err::<(Vec<(String, Value)>, usize), UnpackError>(e),
        },
    decreases depth, 1nat,
{
    let mut entries: Vec<(String, Value)> = Vec::new();
    let mut cur: usize = start;
    let mut i: usize = 0;
    proof {
        lemma_entries_model(entries, 0);
    }
    while i < count
        invariant
            i <= count,
            start <= cur <= data.len(),
            forall|k: int| 0 <= k < entries.len() ==> (#[trigger] entries[k]).1.canonical(),
            Json::Object(entries_model(entries, entries.len() as nat)).valid(),
            Json::Object(entries_model(entries, entries.len() as nat)).nests_within(depth + 1),
            decode_entries(data@, start as int, count as nat, depth as nat, Seq::empty())
                == decode_entries(
                data@,
                cur as int,
                (count - i) as nat,
                depth as nat,
                entries_model(entries, entries.len() as nat),
            ),
        decreases count - i,
    {
        let (key, mid) = decode_at(data, cur, depth)?;
        let (value, next) = decode_at(data, mid, depth)?;
        let ghost before = entries_model(entries, entries.len() as nat);
        proof {
            lemma_insert_valid(before, key_text(key@), value@);
            lemma_insert_nests(before, key_text(key@), value@, depth + 1);
        }
        let name = key_string(key);
        insert_entry(&mut entries, name, value);
        cur = next;
        i += 1;
    }
    Ok((entries, cur))
}

/// Decodes the value that starts at `pos`, with `depth` levels of nesting
/// left.
#[verifier::rlimit(30)]
pub fn decode_at(data: &[u8], pos: usize, depth: usize) -> (r: Result<(Value, usize), UnpackError>)
    ensures
        decoded_as(r, decode_value(data@, pos as int, depth as nat)),
        r matches Ok((v, end)) ==> pos < end <= data.len() && v.well_formed() && v@.nests_within(
            depth as int,
        ),
    decreases depth, 0nat,
{
    let b = safe_byte(data, pos)?;
    match classify(b) {
        Format::PositiveFixInt => Ok((Value::UInt(b as u64), pos + 1)),
        Format::NegativeFixInt => Ok((Value::Int(b as i64 - 0x100), pos + 1)),
        Format::Nil => Ok((Value::Null, pos + 1)),
        Format::False => Ok((Value::Bool(false), pos + 1)),
        Format::True => Ok((Value::Bool(true), pos + 1)),
        Format::Float32 => {
            let bytes: [u8; 4] = safe_array(data, pos + 1)?;
            let bits = read_be(bytes.as_slice(), 0, 4);
            proof {
                assert(bytes@.subrange(0, 4) =~= bytes@);
                lemma_be_uint_bound(bytes@);
            }
            if (bits / 0x80_0000) % 0x100 == 0xff {
                Ok((Value::UInt(0), pos + 5))
            } else {
                Ok((Value::Float(widen_float(bits as u32)), pos + 5))
            }
        },
        Format::Float64 => {
            let bytes: [u8; 8] = safe_array(data, pos + 1)?;
            let bits = read_be(bytes.as_slice(), 0, 8);
            assert(bytes@.subrange(0, 8) =~= bytes@);
            if (bits / 0x10_0000_0000_0000) % 0x800 != 0x7ff {
                Ok((Value::Float(bits), pos + 9))
            } else {
                Ok((Value::UInt(0), pos + 9))
            }
        },
        Format::UInt { width } => {
            if width > data.len() - (pos + 1) {
                return Err(UnpackError::TruncatedData);
            }
            let n = read_be(data, pos + 1, width);
            Ok((Value::UInt(n), pos + 1 + width))
        },
        Format::Int { width } => {
            if width > data.len() - (pos + 1) {
                return Err(UnpackError::TruncatedData);
            }
            let n = read_be(data, pos + 1, width);
            proof {
                lemma_be_uint_bound(data@.subrange(pos + 1, pos + 1 + width));
            }
            let half: u64 = if width == 1 {
                0x80
            } else if width == 2 {
                0x8000
            } else if width == 4 {
                0x8000_0000
            } else {
                0x8000_0000_0000_0000
            };
            if n >= half {
                let below: u64 = (half - 1) + half - n;
                let i: i64 = -(below as i64) - 1;
                Ok((Value::Int(i), pos + 1 + width))
            } else {
                Ok((Value::UInt(n), pos + 1 + width))
            }
        },
        Format::Unknown => Err(UnpackError::UnknownFormatByte),
        Format::FixStr | Format::LongStr { .. } => {
            let (len, start) = read_len(data, pos)?;
            if len > data.len() - start {
                return Err(UnpackError::TruncatedData);
            }
            let text = decode_lossy(slice_subrange(data, start, start + len));
            Ok((Value::Str(text), start + len))
        },
        Format::Bin { .. } => {
            let (len, start) = read_len(data, pos)?;
            if len > data.len() - start {
                return Err(UnpackError::TruncatedData);
            }
            Ok((Value::Null, start + len))
        },
        Format::FixArray | Format::LongArray { .. } => {
            let (count, start) = read_len(data, pos)?;
            if depth == 0 {
                return Err(UnpackError::NestingTooDeep);
            }
            let (items, end) = decode_array_body(data, start, count, depth - 1)?;
            Ok((Value::Array(items), end))
        },
        Format::FixMap | Format::LongMap { .. } => {
            let (count, start) = read_len(data, pos)?;
            if depth == 0 {
                return Err(UnpackError::NestingTooDeep);
            }
            let (entries, end) = decode_map_body(data, start, count, depth - 1)?;
            Ok((Value::Object(entries), end))
        },
    }
}

/// Decodes the MessagePack value that starts at `pos` in `data`, and says
/// where it ends.
///
/// Fails with `TruncatedData` where a field reaches past the end of `data`,
/// with `UnknownFormatByte` where a leading byte belongs to no format, and
/// with `NestingTooDeep` where containers nest deeper than `MAX_DEPTH`.
pub fn parse_msgpack_value(data: &[u8], pos: usize) -> (r: Result<(Value, usize), UnpackError>)
    ensures
        decoded_as(r, decode_value(data@, pos as int, MAX_DEPTH as nat)),
        r matches Ok((v, end)) ==> pos < end <= data.len() && v.well_formed() && v@.nests_within(
            MAX_DEPTH as int,
        ),
{
    decode_at(data, pos, MAX_DEPTH)
}

} // verus!
