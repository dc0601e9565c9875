//! The MessagePack encoder: from a value tree to bytes, each value in the
//! narrowest format that holds it.

use crate::cursor::{be_bytes, push_be};
use crate::value::{lemma_array_view, lemma_object_view, Json, Value, MAX_LEN};
use vstd::prelude::*;
use vstd::utf8::encode_utf8;

verus! {

/// Why a value tree could not be encoded.
#[derive(Debug, Clone, Copy, PartialEq, Eq, Structural)]
pub enum EncodeError {
    /// A string or a container is longer than a length field can say.
    TooLong,
}

/// The bytes for a non-negative integer.
pub open spec fn encode_uint(n: nat) -> Seq<u8> {
    if n <= 0x7f {
        seq![n as u8]
    } else if n <= 0xff {
        seq![0xccu8] + be_bytes(n, 1)
    } else if n <= 0xffff {
        seq![0xcdu8] + be_bytes(n, 2)
    } else if n <= 0xffff_ffff {
        seq![0xceu8] + be_bytes(n, 4)
    } else {
        seq![0xcfu8] + be_bytes(n, 8)
    }
}

/// The bytes for a negative integer, which hold its two's complement.
pub open spec fn encode_negative(i: int) -> Seq<u8> {
    if i >= -0x20 {
        seq![(i + 0x100) as u8]
    } else if i >= -0x80 {
        seq![0xd0u8] + be_bytes((i + 0x100) as nat, 1)
    } else if i >= -0x8000 {
        seq![0xd1u8] + be_bytes((i + 0x1_0000) as nat, 2)
    } else if i >= -0x8000_0000 {
        seq![0xd2u8] + be_bytes((i + 0x1_0000_0000) as nat, 4)
    } else {
        seq![0xd3u8] + be_bytes((i + 0x1_0000_0000_0000_0000) as nat, 8)
    }
}

/// The leading bytes of a value that declares the length `len`: the fix
/// form where `len` is at most `fix_max`, else the form with two or four
/// bytes of length. `wide` is the tag of the two-byte form; the four-byte
/// form has the next tag.
pub open spec fn length_header(len: nat, fix_tag: u8, fix_max: nat, wide: u8) -> Seq<u8> {
    if len <= fix_max {
        seq![(fix_tag + len) as u8]
    } else if len <= 0xffff {
        seq![wide] + be_bytes(len, 2)
    } else {
        seq![(wide + 1) as u8] + be_bytes(len, 4)
    }
}

/// The leading bytes of a string of `len` bytes.
pub open spec fn str_header(len: nat) -> Seq<u8> {
    if len <= 31 {
        seq![(0xa0 + len) as u8]
    } else if len <= 0xff {
        seq![0xd9u8] + be_bytes(len, 1)
    } else {
        length_header(len, 0xa0, 31, 0xda)
    }
}

/// The bytes for a string.
pub open spec fn encode_str(s: Seq<char>) -> Seq<u8> {
    str_header(encode_utf8(s).len()) + encode_utf8(s)
}

/// The MessagePack bytes for `v`.
pub open spec fn encode_bytes(v: Json) -> Seq<u8>
    decreases v, 0nat,
{
    match v {
        Json::Null => seq![0xc0u8],
        Json::Bool(b) => if b {
            seq![0xc3u8]
        } else {
            seq![0xc2u8]
        },
        Json::Int(i) => if i >= 0 {
            encode_uint(i as nat)
        } else {
            encode_negative(i)
        },
        Json::Float(bits) => seq![0xcbu8] + be_bytes(bits as nat, 8),
        Json::Str(s) => encode_str(s),
        Json::Array(items) => length_header(items.len(), 0x90, 15, 0xdc) + encode_items(
            items,
            items.len(),
        ),
        Json::Object(entries) => length_header(entries.len(), 0x80, 15, 0xde) + encode_entries(
            entries,
            entries.len(),
        ),
    }
}

/// The bytes for the first `n` of `items`, one after the other.
pub open spec fn encode_items(items: Seq<Json>, n: nat) -> Seq<u8>
    decreases items, n,
{
    if n == 0 || n > items.len() {
        Seq::empty()
    } else {
        encode_items(items, (n - 1) as nat) + encode_bytes(items[n - 1])
    }
}

/// The bytes for the first `n` of `entries`: each key as a string, then its
/// value.
pub open spec fn encode_entries(entries: Seq<(Seq<char>, Json)>, n: nat) -> Seq<u8>
    decreases entries, n,
{
    if n == 0 || n > entries.len() {
        Seq::empty()
    } else {
        encode_entries(entries, (n - 1) as nat) + encode_str(entries[n - 1].0) + encode_bytes(
            entries[n - 1].1,
        )
    }
}

/// Appends the bytes for the non-negative integer `n`.
fn push_uint(out: &mut Vec<u8>, n: u64)
    ensures
        final(out)@ == old(out)@ + encode_uint(n as nat),
{
    if n <= 0x7f {
        out.push(n as u8);
    } else if n <= 0xff {
        out.push(0xcc);
        push_be(out, n, 1);
    } else if n <= 0xffff {
        out.push(0xcd);
        push_be(out, n, 2);
    } else if n <= 0xffff_ffff {
        out.push(0xce);
        push_be(out, n, 4);
    } else {
        out.push(0xcf);
        push_be(out, n, 8);
    }
    assert(out@ =~= old(out)@ + encode_uint(n as nat));
}

/// Appends the bytes for the negative integer `i`.
fn push_negative_int(out: &mut Vec<u8>, i: i64)
    requires
        i < 0,
    ensures
        final(out)@ == old(out)@ + encode_negative(i as int),
{
    if i >= -0x20 {
        out.push((i + 0x100) as u8);
    } else if i >= -0x80 {
        out.push(0xd0);
        push_be(out, (i + 0x100) as u64, 1);
    } else if i >= -0x8000 {
        out.push(0xd1);
        push_be(out, (i + 0x1_0000) as u64, 2);
    } else if i >= -0x8000_0000 {
        out.push(0xd2);
        push_be(out, (i + 0x1_0000_0000) as u64, 4);
    } else {
        let above: u64 = (i + 0x7fff_ffff_ffff_ffff + 1) as u64;
        out.push(0xd3);
        push_be(out, above + 0x8000_0000_0000_0000, 8);
    }
    assert(out@ =~= old(out)@ + encode_negative(i as int));
}

/// Appends the leading bytes of a container that declares the length
/// `len`.
fn push_length_header(out: &mut Vec<u8>, len: usize, fix_tag: u8, fix_max: usize, wide: u8)
    requires
        len <= MAX_LEN,
        fix_tag + fix_max <= 0xff,
        wide < 0xff,
    ensures
        final(out)@ == old(out)@ + length_header(len as nat, fix_tag, fix_max as nat, wide),
{
    if len <= fix_max {
        out.push(fix_tag + len as u8);
    } else if len <= 0xffff {
        out.push(wide);
        push_be(out, len as u64, 2);
    } else {
        out.push(wide + 1);
        push_be(out, len as u64, 4);
    }
    assert(out@ =~= old(out)@ + length_header(len as nat, fix_tag, fix_max as nat, wide));
}

/// Appends `bytes` as they are.
fn push_bytes(out: &mut Vec<u8>, bytes: &[u8])
    ensures
        final(out)@ == old(out)@ + bytes@,
{
    let mut i: usize = 0;
    while i < bytes.len()
        invariant
            i <= bytes.len(),
            out@ == old(out)@ + bytes@.take(i as int),
        decreases bytes.len() - i,
    {
        out.push(bytes[i]);
        i += 1;
        assert(out@ =~= old(out)@ + bytes@.take(i as int));
    }
    assert(bytes@.take(bytes.len() as int) =~= bytes@);
}

/// Appends the bytes for the string `s`, or reports that it is too long.
fn push_str_value(out: &mut Vec<u8>, s: &str) -> (r: Result<(), EncodeError>)
    ensures
        match r {
            Ok(done) => encode_utf8(s@).len() <= MAX_LEN && final(out)@ == old(out)@ + encode_str(
                s@,
            ),
            Err(e) => encode_utf8(s@).len() > MAX_LEN,
        },
{
    let bytes = s.as_bytes();
    let len = bytes.len();
    if len > MAX_LEN {
        return Err(EncodeError::TooLong);
    }
    if len <= 31 {
        out.push(0xa0 + len as u8);
    } else if len <= 0xff {
        out.push(0xd9);
        push_be(out, len as u64, 1);
    } else {
        push_length_header(out, len, 0xa0, 31, 0xda);
    }
    push_bytes(out, bytes);
    assert(out@ =~= old(out)@ + encode_str(s@));
    Ok(())
}

/// Appends the MessagePack bytes for `v` to `out`, or reports that `v` holds
/// a length that no length field can say.
#[verifier::rlimit(30)]
pub fn write_value(v: &Value, out: &mut Vec<u8>) -> (r: Result<(), EncodeError>)
    ensures
        match r {
            Ok(done) => v@.encodable() && final(out)@ == old(out)@ + encode_bytes(v@),
            Err(e) => !v@.encodable(),
        },
    decreases v,
{
    match v {
        Value::Null => {
            out.push(0xc0);
            assert(out@ =~= old(out)@ + encode_bytes(v@));
            Ok(())
        },
        Value::Bool(b) => {
            if *b {
                out.push(0xc3);
            } else {
                out.push(0xc2);
            }
            assert(out@ =~= old(out)@ + encode_bytes(v@));
            Ok(())
        },
        Value::UInt(n) => {
            push_uint(out, *n);
            Ok(())
        },
        Value::Int(i) => {
            if *i < 0 {
                push_negative_int(out, *i);
            } else {
                push_uint(out, *i as u64);
            }
            Ok(())
        },
        Value::Float(bits) => {
            out.push(0xcb);
            push_be(out, *bits, 8);
            assert(out@ =~= old(out)@ + encode_bytes(v@));
            Ok(())
        },
        Value::Str(s) => push_str_value(out, s.as_str()),
        Value::Array(items) => {
            let ghost model = v@->Array_0;
            proof {
                lemma_array_view(*v);
            }
            if items.len() > MAX_LEN {
                return Err(EncodeError::TooLong);
            }
            push_length_header(out, items.len(), 0x90, 15, 0xdc);
            let ghost head = out@;
            let mut i: usize = 0;
            while i < items.len()
                invariant
                    i <= items.len(),
                    v == Value::Array(*items),
                    model == v@->Array_0,
                    model.len() == items.len(),
                    forall|k: int| 0 <= k < items.len() ==> (#[trigger] model[k]) == items[k]@,
                    forall|k: int| 0 <= k < i ==> (#[trigger] model[k]).encodable(),
                    out@ == head + encode_items(model, i as nat),
                decreases items.len() - i,
            {
                match write_value(&items[i], out) {
                    Ok(done) => {},
                    Err(e) => {
                        assert(!model[i as int].encodable());
                        return Err(e);
                    },
                }
                i += 1;
                assert(out@ =~= head + encode_items(model, i as nat));
            }
            assert(out@ =~= old(out)@ + encode_bytes(v@));
            Ok(())
        },
        Value::Object(entries) => {
            let ghost model = v@->Object_0;
            proof {
                lemma_object_view(*v);
            }
            if entries.len() > MAX_LEN {
                return Err(EncodeError::TooLong);
            }
            push_length_header(out, entries.len(), 0x80, 15, 0xde);
            let ghost head = out@;
            let mut i: usize = 0;
            while i < entries.len()
                invariant
                    i <= entries.len(),
                    v == Value::Object(*entries),
                    model == v@->Object_0,
                    model.len() == entries.len(),
                    forall|k: int|
                        0 <= k < entries.len() ==> (#[trigger] model[k]) == (
                            entries[k].0@,
                            entries[k].1@,
                        ),
                    forall|k: int|
                        0 <= k < i ==> encode_utf8((#[trigger] model[k]).0).len() <= MAX_LEN
                            && model[k].1.encodable(),
                    out@ == head + encode_entries(model, i as nat),
                decreases entries.len() - i,
            {
                match push_str_value(out, entries[i].0.as_str()) {
                    Ok(done) => {},
                    Err(e) => {
                        assert(encode_utf8(model[i as int].0).len() > MAX_LEN);
                        return Err(e);
                    },
                }
                match write_value(&entries[i].1, out) {
                    Ok(done) => {},
                    Err(e) => {
                        assert(!model[i as int].1.encodable());
                        return Err(e);
                    },
                }
                i += 1;
                assert(out@ =~= head + encode_entries(model, i as nat));
            }
            assert(out@ =~= old(out)@ + encode_bytes(v@));
            Ok(())
        },
    }
}

/// The MessagePack bytes for `v`.
///
/// Every value goes into the narrowest format that holds it. Fails only
/// where a string or a container is longer than a length field can say.
pub fn encode(v: &Value) -> (r: Result<Vec<u8>, EncodeError>)
    ensures
        match r {
            Ok(bytes) => v@.encodable() && bytes@ == encode_bytes(v@),
            Err(e) => !v@.encodable(),
        },
{
    let mut out: Vec<u8> = Vec::new();
    match write_value(v, &mut out) {
        Ok(done) => {
            assert(out@ =~= encode_bytes(v@));
            Ok(out)
        },
        Err(e) => Err(e),
    }
}

} // verus!
