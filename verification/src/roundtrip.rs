//! Decoding inverts encoding.

use crate::boundary::lossy_text;
use crate::cursor::{be_bytes, be_uint, field, UnpackError};
use crate::decoder::{
    declared_len, decode_entries, decode_items, decode_value, field_limit, format_of, key_text,
};
use crate::encoder::{
    encode_bytes, encode_entries, encode_items, encode_negative, encode_str, encode_uint,
    length_header, str_header,
};
use crate::seqs::{lemma_sits_part, lemma_sits_split, lemma_sits_whole, sits_at};
use crate::value::{key_index, lemma_key_index, object_insert, Json, MAX_DEPTH, MAX_LEN};
use vstd::prelude::*;
use vstd::utf8::{encode_utf8, encode_utf8_decode_utf8, encode_utf8_valid_utf8};

verus! {

/// `be_bytes` gives as many bytes as it is asked for.
pub proof fn lemma_be_bytes_len(n: nat, width: nat)
    ensures
        be_bytes(n, width).len() == width,
    decreases width,
{
    if width > 0 {
        lemma_be_bytes_len(n / 256, (width - 1) as nat);
    }
}

/// A number that fits in `width` bytes is read back from them.
pub proof fn lemma_be_round_trip(n: nat, width: nat)
    requires
        width <= 8,
        n < field_limit(width as int),
    ensures
        be_uint(be_bytes(n, width)) == n,
    decreases width,
{
    if width > 0 {
        lemma_be_round_trip(n / 256, (width - 1) as nat);
        let b = be_bytes(n, width);
        assert(b.drop_last() =~= be_bytes(n / 256, (width - 1) as nat));
        assert(b.last() == (n % 256) as u8);
    }
}

/// Where a tag and a field stand at `pos`, the tag is the byte at `pos` and
/// the field is read from behind it.
pub proof fn lemma_tagged_field(data: Seq<u8>, pos: int, tag: u8, body: Seq<u8>)
    requires
        sits_at(data, pos, seq![tag] + body),
    ensures
        0 <= pos < data.len(),
        data[pos] == tag,
        field(data, pos + 1, body.len() as int) == Some(body),
{
    lemma_sits_split(data, pos, seq![tag], body);
    assert(data.subrange(pos, pos + 1)[0] == data[pos]);
}

/// The header of a string is read back as the length it declares.
pub proof fn lemma_str_header(data: Seq<u8>, pos: int, len: nat)
    requires
        len <= MAX_LEN,
        sits_at(data, pos, str_header(len)),
    ensures
        0 <= pos < data.len(),
        format_of(data[pos]) is FixStr || format_of(data[pos]) is LongStr,
        declared_len(data, pos) == Ok::<(nat, int), UnpackError>(
            (len, pos + str_header(len).len()),
        ),
{
    if len <= 31 {
        assert(data.subrange(pos, pos + 1)[0] == data[pos]);
    } else if len <= 0xff {
        lemma_be_bytes_len(len, 1);
        lemma_be_round_trip(len, 1);
        lemma_tagged_field(data, pos, 0xd9u8, be_bytes(len, 1));
    } else if len <= 0xffff {
        lemma_be_bytes_len(len, 2);
        lemma_be_round_trip(len, 2);
        lemma_tagged_field(data, pos, 0xdau8, be_bytes(len, 2));
    } else {
        lemma_be_bytes_len(len, 4);
        lemma_be_round_trip(len, 4);
        lemma_tagged_field(data, pos, 0xdbu8, be_bytes(len, 4));
    }
}

/// The header of an array is read back as the count it declares.
pub proof fn lemma_array_header(data: Seq<u8>, pos: int, len: nat)
    requires
        len <= MAX_LEN,
        sits_at(data, pos, length_header(len, 0x90, 15, 0xdc)),
    ensures
        0 <= pos < data.len(),
        format_of(data[pos]) is FixArray || format_of(data[pos]) is LongArray,
        declared_len(data, pos) == Ok::<(nat, int), UnpackError>(
            (len, pos + length_header(len, 0x90, 15, 0xdc).len()),
        ),
{
    if len <= 15 {
        assert(data.subrange(pos, pos + 1)[0] == data[pos]);
    } else if len <= 0xffff {
        lemma_be_bytes_len(len, 2);
        lemma_be_round_trip(len, 2);
        lemma_tagged_field(data, pos, 0xdcu8, be_bytes(len, 2));
    } else {
        lemma_be_bytes_len(len, 4);
        lemma_be_round_trip(len, 4);
        lemma_tagged_field(data, pos, 0xddu8, be_bytes(len, 4));
    }
}

/// The header of a map is read back as the count it declares.
pub proof fn lemma_map_header(data: Seq<u8>, pos: int, len: nat)
    requires
        len <= MAX_LEN,
        sits_at(data, pos, length_header(len, 0x80, 15, 0xde)),
    ensures
        0 <= pos < data.len(),
        format_of(data[pos]) is FixMap || format_of(data[pos]) is LongMap,
        declared_len(data, pos) == Ok::<(nat, int), UnpackError>(
            (len, pos + length_header(len, 0x80, 15, 0xde).len()),
        ),
{
    if len <= 15 {
        assert(data.subrange(pos, pos + 1)[0] == data[pos]);
    } else if len <= 0xffff {
        lemma_be_bytes_len(len, 2);
        lemma_be_round_trip(len, 2);
        lemma_tagged_field(data, pos, 0xdeu8, be_bytes(len, 2));
    } else {
        lemma_be_bytes_len(len, 4);
        lemma_be_round_trip(len, 4);
        lemma_tagged_field(data, pos, 0xdfu8, be_bytes(len, 4));
    }
}

/// An encoded string is decoded to itself.
pub proof fn lemma_decode_str(s: Seq<char>, data: Seq<u8>, pos: int, depth: nat)
    requires
        encode_utf8(s).len() <= MAX_LEN,
        sits_at(data, pos, encode_str(s)),
    ensures
        decode_value(data, pos, depth) == Ok::<(Json, int), UnpackError>(
            (Json::Str(s), pos + encode_str(s).len()),
        ),
{
    let bytes = encode_utf8(s);
    let header = str_header(bytes.len());
    lemma_sits_split(data, pos, header, bytes);
    lemma_str_header(data, pos, bytes.len());
    encode_utf8_valid_utf8(s);
    encode_utf8_decode_utf8(s);
    assert(field(data, pos + header.len(), bytes.len() as int) == Some(bytes));
    assert(lossy_text(bytes) == s);
}

/// An encoded non-negative integer is decoded to itself.
pub proof fn lemma_decode_uint(n: nat, data: Seq<u8>, pos: int, depth: nat)
    requires
        n <= 0xffff_ffff_ffff_ffff,
        sits_at(data, pos, encode_uint(n)),
    ensures
        decode_value(data, pos, depth) == Ok::<(Json, int), UnpackError>(
            (Json::Int(n as int), pos + encode_uint(n).len()),
        ),
{
    if n <= 0x7f {
        assert(data.subrange(pos, pos + 1)[0] == data[pos]);
    } else if n <= 0xff {
        lemma_be_bytes_len(n, 1);
        lemma_be_round_trip(n, 1);
        lemma_tagged_field(data, pos, 0xccu8, be_bytes(n, 1));
    } else if n <= 0xffff {
        lemma_be_bytes_len(n, 2);
        lemma_be_round_trip(n, 2);
        lemma_tagged_field(data, pos, 0xcdu8, be_bytes(n, 2));
    } else if n <= 0xffff_ffff {
        lemma_be_bytes_len(n, 4);
        lemma_be_round_trip(n, 4);
        lemma_tagged_field(data, pos, 0xceu8, be_bytes(n, 4));
    } else {
        lemma_be_bytes_len(n, 8);
        lemma_be_round_trip(n, 8);
        lemma_tagged_field(data, pos, 0xcfu8, be_bytes(n, 8));
    }
}

/// An encoded negative integer is decoded to itself.
pub proof fn lemma_decode_negative(i: int, data: Seq<u8>, pos: int, depth: nat)
    requires
        -0x8000_0000_0000_0000 <= i < 0,
        sits_at(data, pos, encode_negative(i)),
    ensures
        decode_value(data, pos, depth) == Ok::<(Json, int), UnpackError>(
            (Json::Int(i), pos + encode_negative(i).len()),
        ),
{
    if i >= -0x20 {
        assert(data.subrange(pos, pos + 1)[0] == data[pos]);
    } else if i >= -0x80 {
        let n = (i + 0x100) as nat;
        lemma_be_bytes_len(n, 1);
        lemma_be_round_trip(n, 1);
        lemma_tagged_field(data, pos, 0xd0u8, be_bytes(n, 1));
    } else if i >= -0x8000 {
        let n = (i + 0x1_0000) as nat;
        lemma_be_bytes_len(n, 2);
        lemma_be_round_trip(n, 2);
        lemma_tagged_field(data, pos, 0xd1u8, be_bytes(n, 2));
    } else if i >= -0x8000_0000 {
        let n = (i + 0x1_0000_0000) as nat;
        lemma_be_bytes_len(n, 4);
        lemma_be_round_trip(n, 4);
        lemma_tagged_field(data, pos, 0xd2u8, be_bytes(n, 4));
    } else {
        let n = (i + 0x1_0000_0000_0000_0000) as nat;
        lemma_be_bytes_len(n, 8);
        lemma_be_round_trip(n, 8);
        lemma_tagged_field(data, pos, 0xd3u8, be_bytes(n, 8));
    }
}

/// The bytes of fewer items are the start of the bytes of more items.
pub proof fn lemma_items_prefix(items: Seq<Json>, k: nat, n: nat)
    requires
        k <= n <= items.len(),
    ensures
        encode_items(items, k).len() <= encode_items(items, n).len(),
        encode_items(items, n).subrange(0, encode_items(items, k).len() as int) == encode_items(
            items,
            k,
        ),
    decreases n - k,
{
    if k < n {
        lemma_items_prefix(items, k, (n - 1) as nat);
        let shorter = encode_items(items, (n - 1) as nat);
        let longer = encode_items(items, n);
        assert(longer == shorter + encode_bytes(items[n - 1]));
        assert(longer.subrange(0, encode_items(items, k).len() as int) =~= shorter.subrange(
            0,
            encode_items(items, k).len() as int,
        ));
    } else {
        assert(encode_items(items, n).subrange(0, encode_items(items, n).len() as int)
            =~= encode_items(items, n));
    }
}

/// The bytes of fewer entries are the start of the bytes of more entries.
pub proof fn lemma_entries_prefix(entries: Seq<(Seq<char>, Json)>, k: nat, n: nat)
    requires
        k <= n <= entries.len(),
    ensures
        encode_entries(entries, k).len() <= encode_entries(entries, n).len(),
        encode_entries(entries, n).subrange(0, encode_entries(entries, k).len() as int)
            == encode_entries(entries, k),
    decreases n - k,
{
    if k < n {
        lemma_entries_prefix(entries, k, (n - 1) as nat);
        let shorter = encode_entries(entries, (n - 1) as nat);
        let longer = encode_entries(entries, n);
        assert(longer == shorter + encode_str(entries[n - 1].0) + encode_bytes(entries[n - 1].1));
        assert(longer.subrange(0, encode_entries(entries, k).len() as int) =~= shorter.subrange(
            0,
            encode_entries(entries, k).len() as int,
        ));
    } else {
        assert(encode_entries(entries, n).subrange(0, encode_entries(entries, n).len() as int)
            =~= encode_entries(entries, n));
    }
}

/// What stands encoded at `pos` is decoded to the value it was encoded from.
#[verifier::rlimit(30)]
pub proof fn lemma_decode_encoded(v: Json, data: Seq<u8>, pos: int, depth: nat)
    requires
        v.valid(),
        v.encodable(),
        v.nests_within(depth as int),
        sits_at(data, pos, encode_bytes(v)),
    ensures
        decode_value(data, pos, depth) == Ok::<(Json, int), UnpackError>(
            (v, pos + encode_bytes(v).len()),
        ),
    decreases v, 0nat,
{
    match v {
        Json::Null => {
            assert(data.subrange(pos, pos + 1)[0] == data[pos]);
        },
        Json::Bool(b) => {
            assert(data.subrange(pos, pos + 1)[0] == data[pos]);
        },
        Json::Int(i) => {
            if i >= 0 {
                lemma_decode_uint(i as nat, data, pos, depth);
            } else {
                lemma_decode_negative(i, data, pos, depth);
            }
        },
        Json::Float(bits) => {
            lemma_be_bytes_len(bits as nat, 8);
            lemma_be_round_trip(bits as nat, 8);
            lemma_tagged_field(data, pos, 0xcbu8, be_bytes(bits as nat, 8));
        },
        Json::Str(s) => {
            lemma_decode_str(s, data, pos, depth);
        },
        Json::Array(items) => {
            let header = length_header(items.len(), 0x90, 15, 0xdc);
            let body = encode_items(items, items.len());
            lemma_sits_split(data, pos, header, body);
            lemma_array_header(data, pos, items.len());
            lemma_decode_items(
                items,
                data,
                pos + header.len(),
                (depth - 1) as nat,
                0,
                Seq::empty(),
            );
            assert(Seq::<Json>::empty() + items.skip(0) =~= items);
            assert(encode_items(items, 0).len() == 0);
        },
        Json::Object(entries) => {
            let header = length_header(entries.len(), 0x80, 15, 0xde);
            let body = encode_entries(entries, entries.len());
            lemma_sits_split(data, pos, header, body);
            lemma_map_header(data, pos, entries.len());
            assert(entries.take(0) =~= Seq::empty());
            lemma_decode_entries(entries, data, pos + header.len(), (depth - 1) as nat, 0);
            assert(entries.take(entries.len() as int) =~= entries);
            assert(encode_entries(entries, 0).len() == 0);
        },
    }
}

/// What stands encoded as the items of an array is decoded to those items,
/// from the item `k` on.
#[verifier::rlimit(30)]
pub proof fn lemma_decode_items(
    items: Seq<Json>,
    data: Seq<u8>,
    base: int,
    depth: nat,
    k: nat,
    acc: Seq<Json>,
)
    requires
        k <= items.len(),
        forall|i: int| 0 <= i < items.len() ==> (#[trigger] items[i]).valid(),
        forall|i: int| 0 <= i < items.len() ==> (#[trigger] items[i]).encodable(),
        forall|i: int| 0 <= i < items.len() ==> (#[trigger] items[i]).nests_within(depth as int),
        sits_at(data, base, encode_items(items, items.len())),
    ensures
        decode_items(
            data,
            base + encode_items(items, k).len(),
            (items.len() - k) as nat,
            depth,
            acc,
        ) == Ok::<(Seq<Json>, int), UnpackError>(
            (acc + items.skip(k as int), base + encode_items(items, items.len()).len()),
        ),
    decreases items, items.len() - k,
{
    if k == items.len() {
        assert(acc + items.skip(k as int) =~= acc);
    } else {
        let whole = encode_items(items, items.len());
        let upto = encode_items(items, k);
        let next = encode_items(items, (k + 1) as nat);
        let item = encode_bytes(items[k as int]);
        lemma_items_prefix(items, (k + 1) as nat, items.len());
        assert(next == upto + item);
        lemma_sits_part(data, base, whole, 0, next.len() as int);
        lemma_sits_split(data, base, upto, item);
        lemma_decode_encoded(items[k as int], data, base + upto.len(), depth);
        lemma_decode_items(items, data, base, depth, (k + 1) as nat, acc.push(items[k as int]));
        assert(acc.push(items[k as int]) + items.skip((k + 1) as int) =~= acc + items.skip(
            k as int,
        ));
    }
}

/// A key that stands in none of the entries is not found among them.
pub proof fn lemma_new_key(entries: Seq<(Seq<char>, Json)>, key: Seq<char>)
    requires
        forall|i: int| 0 <= i < entries.len() ==> (#[trigger] entries[i]).0 != key,
    ensures
        key_index(entries, key) == -1,
{
    lemma_key_index(entries, key, 0);
}

/// What stands encoded as the entries of a map is decoded to those entries,
/// from the entry `k` on.
#[verifier::rlimit(30)]
pub proof fn lemma_decode_entries(
    entries: Seq<(Seq<char>, Json)>,
    data: Seq<u8>,
    base: int,
    depth: nat,
    k: nat,
)
    requires
        k <= entries.len(),
        Json::Object(entries).valid(),
        forall|i: int|
            0 <= i < entries.len() ==> encode_utf8((#[trigger] entries[i]).0).len() <= MAX_LEN
                && entries[i].1.encodable(),
        forall|i: int|
            0 <= i < entries.len() ==> (#[trigger] entries[i]).1.nests_within(depth as int),
        sits_at(data, base, encode_entries(entries, entries.len())),
    ensures
        decode_entries(
            data,
            base + encode_entries(entries, k).len(),
            (entries.len() - k) as nat,
            depth,
            entries.take(k as int),
        ) == Ok::<(Seq<(Seq<char>, Json)>, int), UnpackError>(
            (entries, base + encode_entries(entries, entries.len()).len()),
        ),
    decreases entries, entries.len() - k,
{
    if k == entries.len() {
        assert(entries.take(k as int) =~= entries);
    } else {
        let whole = encode_entries(entries, entries.len());
        let upto = encode_entries(entries, k);
        let next = encode_entries(entries, (k + 1) as nat);
        let key = entries[k as int].0;
        let value = entries[k as int].1;
        let key_bytes = encode_str(key);
        let value_bytes = encode_bytes(value);
        lemma_entries_prefix(entries, (k + 1) as nat, entries.len());
        assert(next == upto + key_bytes + value_bytes);
        lemma_sits_part(data, base, whole, 0, next.len() as int);
        lemma_sits_split(data, base, upto + key_bytes, value_bytes);
        lemma_sits_split(data, base, upto, key_bytes);
        lemma_decode_str(key, data, base + upto.len(), depth);
        lemma_decode_encoded(value, data, base + upto.len() + key_bytes.len(), depth);
        let before = entries.take(k as int);
        assert forall|i: int| 0 <= i < before.len() implies (#[trigger] before[i]).0 != key by {
            assert(before[i] == entries[i]);
        }
        lemma_new_key(before, key);
        assert(object_insert(before, key_text(Json::Str(key)), value) =~= entries.take(
            (k + 1) as int,
        ));
        lemma_decode_entries(entries, data, base, depth, (k + 1) as nat);
    }
}

/// Decoding inverts encoding: a valid value tree that nests no deeper than
/// `MAX_DEPTH` and whose lengths fit a length field is decoded from its own
/// MessagePack bytes, and the decoder stops at their end.
pub proof fn decode_inverts_encode(v: Json)
    requires
        v.valid(),
        v.encodable(),
        v.nests_within(MAX_DEPTH as int),
    ensures
        decode_value(encode_bytes(v), 0, MAX_DEPTH as nat) == Ok::<(Json, int), UnpackError>(
            (v, encode_bytes(v).len() as int),
        ),
{
    let data = encode_bytes(v);
    lemma_sits_whole(data);
    lemma_decode_encoded(v, data, 0, MAX_DEPTH as nat);
}

} // verus!
