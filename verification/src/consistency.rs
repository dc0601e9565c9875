//! The position mapper keeps step with the printer: walked over the bytes of
//! a value and over the pretty text of the same value, it finds every scalar
//! and every key exactly where the printer put it.

use crate::cursor::UnpackError;
use crate::decoder::{declared_len, decode_value, format_of, key_text};
use crate::encoder::{
    encode_bytes, encode_entries, encode_items, encode_str, length_header,
};
use crate::fidelity::lemma_number_read_back;
use crate::format::{is_whitespace, string_literal};
use crate::json::{
    bool_text, compact_text, float_text, line_break, null_text, pretty_entries, pretty_items,
    pretty_text, spaces,
};
use crate::position_mapper::{
    mapping, skip_end, step_over, walk_entries, walk_items, walk_value, whitespace_end,
    MappingError, MappingType, PositionMapping, Walked,
};
use crate::roundtrip::{
    lemma_array_header, lemma_decode_encoded, lemma_decode_str, lemma_entries_prefix,
    lemma_items_prefix, lemma_map_header,
};
use crate::seqs::{lemma_sits_index, lemma_sits_part, lemma_sits_split, lemma_sits_whole, sits_at};
use crate::value::{Json, MAX_DEPTH, MAX_LEN};
use vstd::prelude::*;
use vstd::utf8::encode_utf8;

verus! {

/// Whether `s` starts with a character that the walk does not skip: no white
/// space, no comma and no colon.
pub open spec fn starts_cleanly(s: Seq<char>) -> bool {
    s.len() > 0 && !is_whitespace(s[0]) && s[0] != ',' && s[0] != ':'
}

/// Whether the text of every float in `v` starts cleanly. The text of a
/// float comes from serde_json, so this is a condition on what it prints.
pub open spec fn prints_cleanly(v: Json) -> bool
    decreases v,
{
    match v {
        Json::Float(bits) => starts_cleanly(float_text(bits)),
        Json::Array(items) => forall|i: int|
            0 <= i < items.len() ==> prints_cleanly(#[trigger] items[i]),
        Json::Object(entries) => forall|i: int|
            0 <= i < entries.len() ==> prints_cleanly((#[trigger] entries[i]).1),
        _ => true,
    }
}

/// The text that the bytes of the mapping `m` stand for: the string literal
/// of the key for a key, the JSON text of the scalar for a value.
pub open spec fn shown(data: Seq<u8>, m: PositionMapping) -> Option<Seq<char>> {
    match decode_value(data, m.hex_start as int, 0) {
        Ok((v, end)) => if end == m.hex_end {
            Some(
                if m.mapping_type == MappingType::Key {
                    string_literal(key_text(v))
                } else {
                    compact_text(v)
                },
            )
        } else {
            None
        },
        Err(e) => None,
    }
}

/// Whether the two spans of `m` belong together: its bytes decode to one
/// value, and its characters are the text of that value.
pub open spec fn in_sync(data: Seq<u8>, text: Seq<char>, m: PositionMapping) -> bool {
    m.json_start <= m.json_end <= text.len() && shown(data, m) == Some(
        text.subrange(m.json_start as int, m.json_end as int),
    )
}

/// Whether the walk `w` went well: it kept the mappings `acc` it started
/// with, every mapping that it added is in sync, and it stopped at `hex_end`
/// and `json_end`.
pub open spec fn walk_well(
    w: Walked,
    acc: Seq<PositionMapping>,
    hex_end: int,
    json_end: int,
    data: Seq<u8>,
    text: Seq<char>,
) -> bool {
    w matches Ok((maps, h, j)) && h == hex_end && j == json_end && acc.len() <= maps.len()
        && maps.take(acc.len() as int) == acc && forall|k: int|
        acc.len() <= k < maps.len() ==> in_sync(data, text, #[trigger] maps[k])
}

/// A run of white space and delimiters that ends at the end of the text, or
/// before a character that is neither, is skipped as a whole.
pub proof fn lemma_skip_run(text: Seq<char>, pos: int, end: int, delimiters: Seq<char>)
    requires
        0 <= pos <= end <= text.len(),
        forall|k: int|
            pos <= k < end ==> is_whitespace(#[trigger] text[k]) || delimiters.contains(text[k]),
        end == text.len() || !(is_whitespace(text[end]) || delimiters.contains(text[end])),
    ensures
        skip_end(text, pos, delimiters) == end,
    decreases end - pos,
{
    if pos < end {
        assert(is_whitespace(text[pos]) || delimiters.contains(text[pos]));
        lemma_skip_run(text, pos + 1, end, delimiters);
    }
}

/// A line break with its indent is white space, all of it.
pub proof fn lemma_line_break_blank(level: nat)
    ensures
        line_break(level).len() == 1 + 2 * level,
        forall|k: int| 0 <= k < line_break(level).len() ==> is_whitespace(
            #[trigger] line_break(level)[k],
        ),
{
    let s = line_break(level);
    assert forall|k: int| 0 <= k < s.len() implies is_whitespace(#[trigger] s[k]) by {
        if k == 0 {
            assert(s[0] == '\n');
        } else {
            assert(s[k] == spaces(2 * level)[k - 1]);
            assert(s[k] == ' ');
        }
    }
}

/// The pretty text of a value starts cleanly.
pub proof fn lemma_pretty_starts(v: Json, level: nat)
    requires
        v.valid(),
        prints_cleanly(v),
    ensures
        starts_cleanly(pretty_text(v, level)),
        v is Array ==> pretty_text(v, level)[0] == '[',
        v is Object ==> pretty_text(v, level)[0] == '{',
{
    match v {
        Json::Null => {
            assert(null_text()[0] == 'n');
        },
        Json::Bool(b) => {
            if b {
                assert(bool_text(b)[0] == 't');
            } else {
                assert(bool_text(b)[0] == 'f');
            }
        },
        Json::Int(i) => {
            lemma_number_read_back(i);
        },
        Json::Float(bits) => {},
        Json::Str(s) => {
            assert(string_literal(s)[0] == '"');
        },
        Json::Array(items) => {
            assert(pretty_text(v, level)[0] == '[');
        },
        Json::Object(entries) => {
            assert(pretty_text(v, level)[0] == '{');
        },
    }
}

/// Whether `v` is neither an array nor an object.
pub open spec fn is_scalar(v: Json) -> bool {
    !(v is Array) && !(v is Object)
}

/// The walk over a scalar makes the one mapping that is in sync.
#[verifier::rlimit(30)]
pub proof fn lemma_walk_scalar(
    v: Json,
    level: nat,
    data: Seq<u8>,
    hex_pos: int,
    text: Seq<char>,
    from: int,
    json_pos: int,
    depth: nat,
    acc: Seq<PositionMapping>,
)
    requires
        is_scalar(v),
        v.valid(),
        v.encodable(),
        prints_cleanly(v),
        sits_at(data, hex_pos, encode_bytes(v)),
        sits_at(text, json_pos, pretty_text(v, level)),
        whitespace_end(text, from) == json_pos,
        text.len() <= usize::MAX,
        data.len() <= usize::MAX,
    ensures
        walk_well(
            walk_value(data, text, hex_pos, from, depth, acc),
            acc,
            hex_pos + encode_bytes(v).len(),
            json_pos + pretty_text(v, level).len(),
            data,
            text,
        ),
{
    let printed = pretty_text(v, level);
    let hex_end = hex_pos + encode_bytes(v).len();
    lemma_decode_encoded(v, data, hex_pos, depth);
    lemma_decode_encoded(v, data, hex_pos, 0);
    lemma_sits_index(data, hex_pos, encode_bytes(v), 0);
    let f = format_of(data[hex_pos]);
    assert(!(f is Bin)) by {
        if v is Null {
            assert(data[hex_pos] == 0xc0u8);
        }
    }
    assert(printed == compact_text(v));
    let m = mapping(json_pos, printed.len(), hex_pos, hex_end, MappingType::Value);
    let maps = acc.push(m);
    assert(walk_value(data, text, hex_pos, from, depth, acc) == Ok::<
        (Seq<PositionMapping>, int, int),
        MappingError,
    >((maps, hex_end, json_pos + printed.len())));
    assert(maps.take(acc.len() as int) =~= acc);
    assert(in_sync(data, text, m));
    assert forall|k: int| acc.len() <= k < maps.len() implies in_sync(
        data,
        text,
        #[trigger] maps[k],
    ) by {
        assert(maps[k] == m);
    }
}

/// Two walks that went well, one after the other, went well together.
pub proof fn lemma_well_chain(
    first: Walked,
    second: Walked,
    acc: Seq<PositionMapping>,
    hex_end: int,
    json_end: int,
    data: Seq<u8>,
    text: Seq<char>,
)
    requires
        first matches Ok((maps, h, j)) && acc.len() <= maps.len() && maps.take(acc.len() as int)
            == acc && (forall|k: int|
            acc.len() <= k < maps.len() ==> in_sync(data, text, #[trigger] maps[k])) && walk_well(
            second,
            maps,
            hex_end,
            json_end,
            data,
            text,
        ),
    ensures
        walk_well(second, acc, hex_end, json_end, data, text),
{
    let middle = first->Ok_0.0;
    let all = second->Ok_0.0;
    assert(all.take(acc.len() as int) =~= middle.take(acc.len() as int)) by {
        assert(all.take(middle.len() as int) == middle);
    }
    assert forall|k: int| acc.len() <= k < all.len() implies in_sync(
        data,
        text,
        #[trigger] all[k],
    ) by {
        if k < middle.len() {
            assert(all.take(middle.len() as int)[k] == all[k]);
            assert(in_sync(data, text, middle[k]));
        }
    }
}

/// The texts of fewer items are the start of the texts of more items.
pub proof fn lemma_pretty_items_prefix(items: Seq<Json>, k: nat, n: nat, level: nat)
    requires
        k <= n <= items.len(),
    ensures
        pretty_items(items, k, level).len() <= pretty_items(items, n, level).len(),
        pretty_items(items, n, level).subrange(0, pretty_items(items, k, level).len() as int)
            == pretty_items(items, k, level),
    decreases n - k,
{
    let short = pretty_items(items, k, level);
    if k < n {
        lemma_pretty_items_prefix(items, k, (n - 1) as nat, level);
        let shorter = pretty_items(items, (n - 1) as nat, level);
        let longer = pretty_items(items, n, level);
        assert(shorter =~= longer.subrange(0, shorter.len() as int));
        assert(longer.subrange(0, short.len() as int) =~= shorter.subrange(0, short.len() as int));
    } else {
        assert(short.subrange(0, short.len() as int) =~= short);
    }
}

/// The texts of fewer entries are the start of the texts of more entries.
pub proof fn lemma_pretty_entries_prefix(
    entries: Seq<(Seq<char>, Json)>,
    k: nat,
    n: nat,
    level: nat,
)
    requires
        k <= n <= entries.len(),
    ensures
        pretty_entries(entries, k, level).len() <= pretty_entries(entries, n, level).len(),
        pretty_entries(entries, n, level).subrange(
            0,
            pretty_entries(entries, k, level).len() as int,
        ) == pretty_entries(entries, k, level),
    decreases n - k,
{
    let short = pretty_entries(entries, k, level);
    if k < n {
        lemma_pretty_entries_prefix(entries, k, (n - 1) as nat, level);
        let shorter = pretty_entries(entries, (n - 1) as nat, level);
        let longer = pretty_entries(entries, n, level);
        assert(shorter =~= longer.subrange(0, shorter.len() as int));
        assert(longer.subrange(0, short.len() as int) =~= shorter.subrange(0, short.len() as int));
    } else {
        assert(short.subrange(0, short.len() as int) =~= short);
    }
}

/// What stands between two items in the pretty text: a comma after every
/// item but the one before the first, then the line break.
pub open spec fn lead(k: nat, level: nat) -> Seq<char> {
    if k == 0 {
        line_break(level)
    } else {
        seq![','] + line_break(level)
    }
}

/// The lead is made of commas and white space, and is skipped where clean
/// text follows it.
#[verifier::rlimit(30)]
pub proof fn lemma_skip_lead(text: Seq<char>, pos: int, k: nat, level: nat, next: Seq<char>)
    requires
        sits_at(text, pos, lead(k, level) + next),
        starts_cleanly(next),
    ensures
        skip_end(text, pos, seq![',']) == pos + lead(k, level).len(),
        whitespace_end(text, pos + lead(k, level).len()) == pos + lead(k, level).len(),
        sits_at(text, pos + lead(k, level).len(), next),
        text[pos + lead(k, level).len()] == next[0],
{
    let gap = lead(k, level);
    lemma_line_break_blank(level);
    lemma_sits_split(text, pos, gap, next);
    let end = pos + gap.len();
    lemma_sits_index(text, end, next, 0);
    assert(seq![','].contains(',')) by {
        assert(seq![','][0] == ',');
    }
    assert forall|j: int| pos <= j < end implies is_whitespace(#[trigger] text[j]) || seq![
        ',',
    ].contains(text[j]) by {
        lemma_sits_index(text, pos, gap, j - pos);
        if k == 0 {
            assert(gap[j - pos] == line_break(level)[j - pos]);
        } else if j == pos {
            assert(gap[0] == ',');
        } else {
            assert(gap[j - pos] == line_break(level)[j - pos - 1]);
        }
    }
    assert(!seq![','].contains(text[end]));
    lemma_skip_run(text, pos, end, seq![',']);
    lemma_skip_run(text, end, end, Seq::empty());
}

/// What stands behind the last item of a container is skipped up to the
/// closing bracket.
pub proof fn lemma_skip_close(text: Seq<char>, pos: int, level: nat, close: char)
    requires
        sits_at(text, pos, line_break(level) + seq![close]),
        !is_whitespace(close),
    ensures
        step_over(text, whitespace_end(text, pos), close) == pos + line_break(level).len() + 1,
{
    let gap = line_break(level);
    lemma_line_break_blank(level);
    lemma_sits_split(text, pos, gap, seq![close]);
    let end = pos + gap.len();
    lemma_sits_index(text, end, seq![close], 0);
    assert forall|j: int| pos <= j < end implies is_whitespace(#[trigger] text[j])
        || Seq::<char>::empty().contains(text[j]) by {
        lemma_sits_index(text, pos, gap, j - pos);
    }
    lemma_skip_run(text, pos, end, Seq::empty());
}

/// Where the bytes of the entry `k` of a map stand: its key as a string,
/// then its value.
pub proof fn lemma_entry_bytes(
    entries: Seq<(Seq<char>, Json)>,
    k: nat,
    data: Seq<u8>,
    hex_base: int,
)
    requires
        k < entries.len(),
        sits_at(data, hex_base, encode_entries(entries, entries.len())),
    ensures
        sits_at(data, hex_base + encode_entries(entries, k).len(), encode_str(entries[k as int].0)),
        sits_at(
            data,
            hex_base + encode_entries(entries, k).len() + encode_str(entries[k as int].0).len(),
            encode_bytes(entries[k as int].1),
        ),
        encode_entries(entries, (k + 1) as nat).len() == encode_entries(entries, k).len()
            + encode_str(entries[k as int].0).len() + encode_bytes(entries[k as int].1).len(),
{
    let n = entries.len();
    let key = entries[k as int].0;
    let value = entries[k as int].1;
    let bytes_before = encode_entries(entries, k);
    let bytes_after = encode_entries(entries, (k + 1) as nat);
    lemma_entries_prefix(entries, (k + 1) as nat, n);
    assert(bytes_after == bytes_before + encode_str(key) + encode_bytes(value));
    lemma_sits_part(data, hex_base, encode_entries(entries, n), 0, bytes_after.len() as int);
    lemma_sits_split(data, hex_base, bytes_before + encode_str(key), encode_bytes(value));
    lemma_sits_split(data, hex_base, bytes_before, encode_str(key));
}

/// Where the bytes of the item `k` of an array stand.
pub proof fn lemma_item_bytes(items: Seq<Json>, k: nat, data: Seq<u8>, hex_base: int)
    requires
        k < items.len(),
        sits_at(data, hex_base, encode_items(items, items.len())),
    ensures
        sits_at(data, hex_base + encode_items(items, k).len(), encode_bytes(items[k as int])),
        encode_items(items, (k + 1) as nat).len() == encode_items(items, k).len() + encode_bytes(
            items[k as int],
        ).len(),
{
    let n = items.len();
    let bytes_before = encode_items(items, k);
    let bytes_after = encode_items(items, (k + 1) as nat);
    lemma_items_prefix(items, (k + 1) as nat, n);
    assert(bytes_after == bytes_before + encode_bytes(items[k as int]));
    lemma_sits_part(data, hex_base, encode_items(items, n), 0, bytes_after.len() as int);
    lemma_sits_split(data, hex_base, bytes_before, encode_bytes(items[k as int]));
}

/// Where the pretty text of the item `k` of an array stands, with its lead.
#[verifier::rlimit(30)]
pub proof fn lemma_item_place(
    items: Seq<Json>,
    k: nat,
    level: nat,
    text: Seq<char>,
    json_base: int,
)
    requires
        k < items.len(),
        sits_at(text, json_base, pretty_items(items, items.len(), level)),
    ensures
        sits_at(
            text,
            json_base + pretty_items(items, k, level).len(),
            lead(k, level) + pretty_text(items[k as int], level),
        ),
        pretty_items(items, (k + 1) as nat, level).len() == pretty_items(items, k, level).len()
            + lead(k, level).len() + pretty_text(items[k as int], level).len(),
{
    let n = items.len();
    let text_before = pretty_items(items, k, level);
    let text_after = pretty_items(items, (k + 1) as nat, level);
    let gap = lead(k, level);
    let shown_item = pretty_text(items[k as int], level);
    lemma_pretty_items_prefix(items, (k + 1) as nat, n, level);
    assert(text_before.len() == 0 <==> k == 0) by {
        if k > 0 {
            lemma_line_break_blank(level);
            assert(pretty_items(items, k, level).len() >= line_break(level).len());
        }
    }
    assert(text_after =~= text_before + (gap + shown_item));
    lemma_sits_part(text, json_base, pretty_items(items, n, level), 0, text_after.len() as int);
    lemma_sits_split(text, json_base, text_before, gap + shown_item);
}

/// Where the pretty text of the entry `k` of an object stands, with its
/// lead: the key, a colon, a space and the value.
#[verifier::rlimit(30)]
pub proof fn lemma_entry_place(
    entries: Seq<(Seq<char>, Json)>,
    k: nat,
    level: nat,
    text: Seq<char>,
    json_base: int,
)
    requires
        k < entries.len(),
        sits_at(text, json_base, pretty_entries(entries, entries.len(), level)),
    ensures
        sits_at(
            text,
            json_base + pretty_entries(entries, k, level).len(),
            lead(k, level) + (string_literal(entries[k as int].0) + (seq![':', ' '] + pretty_text(
                entries[k as int].1,
                level,
            ))),
        ),
        pretty_entries(entries, (k + 1) as nat, level).len() == pretty_entries(
            entries,
            k,
            level,
        ).len() + lead(k, level).len() + string_literal(entries[k as int].0).len() + 2
            + pretty_text(entries[k as int].1, level).len(),
{
    let n = entries.len();
    let text_before = pretty_entries(entries, k, level);
    let text_after = pretty_entries(entries, (k + 1) as nat, level);
    let gap = lead(k, level);
    let literal = string_literal(entries[k as int].0);
    let between = seq![':', ' '];
    let shown_value = pretty_text(entries[k as int].1, level);
    lemma_pretty_entries_prefix(entries, (k + 1) as nat, n, level);
    assert(text_before.len() == 0 <==> k == 0) by {
        if k > 0 {
            lemma_line_break_blank(level);
            assert(pretty_entries(entries, k, level).len() >= line_break(level).len());
        }
    }
    assert(text_after =~= text_before + (gap + (literal + (between + shown_value))));
    lemma_sits_part(text, json_base, pretty_entries(entries, n, level), 0, text_after.len() as int);
    lemma_sits_split(text, json_base, text_before, gap + (literal + (between + shown_value)));
}

/// Where the text of the item `k` of an array stands, and that the walk
/// finds it: behind the lead, which it skips.
#[verifier::rlimit(40)]
pub proof fn lemma_item_text(
    items: Seq<Json>,
    k: nat,
    level: nat,
    text: Seq<char>,
    json_base: int,
)
    requires
        k < items.len(),
        items[k as int].valid(),
        prints_cleanly(items[k as int]),
        sits_at(text, json_base, pretty_items(items, items.len(), level)),
    ensures
        ({
            let json = json_base + pretty_items(items, k, level).len();
            let item_at = json + lead(k, level).len();
            &&& skip_end(text, json, seq![',']) == item_at
            &&& whitespace_end(text, item_at) == item_at
            &&& sits_at(text, item_at, pretty_text(items[k as int], level))
            &&& item_at + pretty_text(items[k as int], level).len() == json_base + pretty_items(
                items,
                (k + 1) as nat,
                level,
            ).len()
        }),
{
    let item = items[k as int];
    let shown_item = pretty_text(item, level);
    let json = json_base + pretty_items(items, k, level).len();
    lemma_item_place(items, k, level, text, json_base);
    lemma_pretty_starts(item, level);
    lemma_skip_lead(text, json, k, level, shown_item);
}

/// Where the text of the entry `k` of an object stands, and that the walk
/// finds it: the key behind the lead, the value behind the colon and the
/// space.
#[verifier::rlimit(40)]
pub proof fn lemma_entry_text(
    entries: Seq<(Seq<char>, Json)>,
    k: nat,
    level: nat,
    text: Seq<char>,
    json_base: int,
)
    requires
        k < entries.len(),
        entries[k as int].1.valid(),
        prints_cleanly(entries[k as int].1),
        sits_at(text, json_base, pretty_entries(entries, entries.len(), level)),
    ensures
        ({
            let json = json_base + pretty_entries(entries, k, level).len();
            let key_at = json + lead(k, level).len();
            let literal = string_literal(entries[k as int].0);
            let value_at = key_at + literal.len() + 2;
            &&& skip_end(text, json, seq![',']) == key_at
            &&& 0 <= key_at < text.len()
            &&& text[key_at] == '"'
            &&& sits_at(text, key_at, literal)
            &&& skip_end(text, key_at + literal.len(), seq![':']) == value_at
            &&& whitespace_end(text, value_at) == value_at
            &&& sits_at(text, value_at, pretty_text(entries[k as int].1, level))
            &&& value_at + pretty_text(entries[k as int].1, level).len() == json_base
                + pretty_entries(entries, (k + 1) as nat, level).len()
        }),
{
    let key = entries[k as int].0;
    let value = entries[k as int].1;
    let gap = lead(k, level);
    let literal = string_literal(key);
    let between = seq![':', ' '];
    let shown_value = pretty_text(value, level);
    let json = json_base + pretty_entries(entries, k, level).len();
    lemma_entry_place(entries, k, level, text, json_base);
    assert(literal[0] == '"');
    assert(starts_cleanly(literal + (between + shown_value))) by {
        assert((literal + (between + shown_value))[0] == literal[0]);
    }
    lemma_skip_lead(text, json, k, level, literal + (between + shown_value));
    let key_at = json + gap.len();
    lemma_sits_split(text, key_at, literal, between + shown_value);
    let after_key = key_at + literal.len();
    lemma_sits_split(text, after_key, between, shown_value);
    let value_at = after_key + 2;
    lemma_pretty_starts(value, level);
    lemma_sits_index(text, value_at, shown_value, 0);
    assert(seq![':'].contains(':')) by {
        assert(seq![':'][0] == ':');
    }
    assert forall|j: int| after_key <= j < value_at implies is_whitespace(#[trigger] text[j])
        || seq![':'].contains(text[j]) by {
        lemma_sits_index(text, after_key, between, j - after_key);
    }
    assert(!seq![':'].contains(text[value_at]));
    lemma_skip_run(text, after_key, value_at, seq![':']);
    lemma_skip_run(text, value_at, value_at, Seq::empty());
}

/// The walk over an array keeps step with its pretty text.
#[verifier::rlimit(40)]
pub proof fn lemma_walk_array(
    items: Seq<Json>,
    level: nat,
    data: Seq<u8>,
    hex_pos: int,
    text: Seq<char>,
    from: int,
    json_pos: int,
    depth: nat,
    acc: Seq<PositionMapping>,
)
    requires
        Json::Array(items).valid(),
        Json::Array(items).encodable(),
        Json::Array(items).nests_within(depth as int),
        prints_cleanly(Json::Array(items)),
        sits_at(data, hex_pos, encode_bytes(Json::Array(items))),
        sits_at(text, json_pos, pretty_text(Json::Array(items), level)),
        whitespace_end(text, from) == json_pos,
        text.len() <= usize::MAX,
        data.len() <= usize::MAX,
    ensures
        walk_well(
            walk_value(data, text, hex_pos, from, depth, acc),
            acc,
            hex_pos + encode_bytes(Json::Array(items)).len(),
            json_pos + pretty_text(Json::Array(items), level).len(),
            data,
            text,
        ),
    decreases items, items.len() + 1,
{
    let v = Json::Array(items);
    let printed = pretty_text(v, level);
    let n = items.len();
    let header = length_header(n, 0x90, 15, 0xdc);
    let body = encode_items(items, n);
    assert(v.valid() && v.encodable() && v.nests_within(depth as int) && prints_cleanly(v));
    lemma_sits_split(data, hex_pos, header, body);
    lemma_array_header(data, hex_pos, n);
    lemma_sits_index(text, json_pos, printed, 0);
    assert(printed[0] == '[');
    let start = hex_pos + header.len();
    let inside = json_pos + 1;
    assert(step_over(text, json_pos, '[') == inside);
    let f = format_of(data[hex_pos]);
    assert(f is FixArray || f is LongArray);
    assert(declared_len(data, hex_pos) == Ok::<(nat, int), UnpackError>((n, start)));
    assert(depth > 0);
    if n == 0 {
        lemma_sits_index(text, json_pos, printed, 1);
        assert(printed[1] == ']');
        assert(whitespace_end(text, inside) == inside);
        assert(encode_items(items, 0).len() == 0);
        assert(acc.take(acc.len() as int) =~= acc);
        assert(walk_items(data, text, start, inside, 0, (depth - 1) as nat, acc) == Ok::<
            (Seq<PositionMapping>, int, int),
            MappingError,
        >((acc, start, inside)));
    } else {
        let list = pretty_items(items, n, level + 1);
        let tail = line_break(level) + seq![']'];
        assert(printed =~= seq!['['] + (list + tail));
        lemma_sits_split(text, json_pos, seq!['['], list + tail);
        lemma_sits_split(text, inside, list, tail);
        assert(pretty_items(items, 0, level + 1).len() == 0);
        assert(encode_items(items, 0).len() == 0);
        lemma_walk_items(items, level + 1, data, start, text, inside, (depth - 1) as nat, 0, acc);
        lemma_skip_close(text, inside + list.len(), level, ']');
    }
}

/// The walk over an object keeps step with its pretty text.
#[verifier::rlimit(40)]
pub proof fn lemma_walk_object(
    entries: Seq<(Seq<char>, Json)>,
    level: nat,
    data: Seq<u8>,
    hex_pos: int,
    text: Seq<char>,
    from: int,
    json_pos: int,
    depth: nat,
    acc: Seq<PositionMapping>,
)
    requires
        Json::Object(entries).valid(),
        Json::Object(entries).encodable(),
        Json::Object(entries).nests_within(depth as int),
        prints_cleanly(Json::Object(entries)),
        sits_at(data, hex_pos, encode_bytes(Json::Object(entries))),
        sits_at(text, json_pos, pretty_text(Json::Object(entries), level)),
        whitespace_end(text, from) == json_pos,
        text.len() <= usize::MAX,
        data.len() <= usize::MAX,
    ensures
        walk_well(
            walk_value(data, text, hex_pos, from, depth, acc),
            acc,
            hex_pos + encode_bytes(Json::Object(entries)).len(),
            json_pos + pretty_text(Json::Object(entries), level).len(),
            data,
            text,
        ),
    decreases entries, entries.len() + 1,
{
    let v = Json::Object(entries);
    let printed = pretty_text(v, level);
    let n = entries.len();
    let header = length_header(n, 0x80, 15, 0xde);
    let body = encode_entries(entries, n);
    assert(v.valid() && v.encodable() && v.nests_within(depth as int) && prints_cleanly(v));
    lemma_sits_split(data, hex_pos, header, body);
    lemma_map_header(data, hex_pos, n);
    lemma_sits_index(text, json_pos, printed, 0);
    assert(printed[0] == '{');
    let start = hex_pos + header.len();
    let inside = json_pos + 1;
    assert(step_over(text, json_pos, '{') == inside);
    let f = format_of(data[hex_pos]);
    assert(f is FixMap || f is LongMap);
    assert(declared_len(data, hex_pos) == Ok::<(nat, int), UnpackError>((n, start)));
    assert(depth > 0);
    if n == 0 {
        lemma_sits_index(text, json_pos, printed, 1);
        assert(printed[1] == '}');
        assert(whitespace_end(text, inside) == inside);
        assert(encode_entries(entries, 0).len() == 0);
        assert(acc.take(acc.len() as int) =~= acc);
        assert(walk_entries(data, text, start, inside, 0, (depth - 1) as nat, acc) == Ok::<
            (Seq<PositionMapping>, int, int),
            MappingError,
        >((acc, start, inside)));
    } else {
        let list = pretty_entries(entries, n, level + 1);
        let tail = line_break(level) + seq!['}'];
        assert(printed =~= seq!['{'] + (list + tail));
        lemma_sits_split(text, json_pos, seq!['{'], list + tail);
        lemma_sits_split(text, inside, list, tail);
        assert(pretty_entries(entries, 0, level + 1).len() == 0);
        assert(encode_entries(entries, 0).len() == 0);
        lemma_walk_entries(
            entries,
            level + 1,
            data,
            start,
            text,
            inside,
            (depth - 1) as nat,
            0,
            acc,
        );
        lemma_skip_close(text, inside + list.len(), level, '}');
    }
}

/// The walk over a value keeps step with its pretty text: it ends where
/// the bytes and the text of the value end, and every mapping that it makes
/// is in sync.
pub proof fn lemma_walk_value(
    v: Json,
    level: nat,
    data: Seq<u8>,
    hex_pos: int,
    text: Seq<char>,
    from: int,
    json_pos: int,
    depth: nat,
    acc: Seq<PositionMapping>,
)
    requires
        v.valid(),
        v.encodable(),
        v.nests_within(depth as int),
        prints_cleanly(v),
        sits_at(data, hex_pos, encode_bytes(v)),
        sits_at(text, json_pos, pretty_text(v, level)),
        whitespace_end(text, from) == json_pos,
        text.len() <= usize::MAX,
        data.len() <= usize::MAX,
    ensures
        walk_well(
            walk_value(data, text, hex_pos, from, depth, acc),
            acc,
            hex_pos + encode_bytes(v).len(),
            json_pos + pretty_text(v, level).len(),
            data,
            text,
        ),
    decreases v, 0nat,
{
    match v {
        Json::Array(items) => {
            lemma_walk_array(items, level, data, hex_pos, text, from, json_pos, depth, acc);
        },
        Json::Object(entries) => {
            lemma_walk_object(entries, level, data, hex_pos, text, from, json_pos, depth, acc);
        },
        _ => {
            lemma_walk_scalar(v, level, data, hex_pos, text, from, json_pos, depth, acc);
        },
    }
}

/// The walk over the items of an array keeps step with their pretty text,
/// from the item `k` on.
#[verifier::rlimit(40)]
pub proof fn lemma_walk_items(
    items: Seq<Json>,
    level: nat,
    data: Seq<u8>,
    hex_base: int,
    text: Seq<char>,
    json_base: int,
    depth: nat,
    k: nat,
    acc: Seq<PositionMapping>,
)
    requires
        k <= items.len(),
        forall|i: int| 0 <= i < items.len() ==> (#[trigger] items[i]).valid(),
        forall|i: int| 0 <= i < items.len() ==> (#[trigger] items[i]).encodable(),
        forall|i: int| 0 <= i < items.len() ==> (#[trigger] items[i]).nests_within(depth as int),
        forall|i: int| 0 <= i < items.len() ==> prints_cleanly(#[trigger] items[i]),
        sits_at(data, hex_base, encode_items(items, items.len())),
        sits_at(text, json_base, pretty_items(items, items.len(), level)),
        text.len() <= usize::MAX,
        data.len() <= usize::MAX,
    ensures
        walk_well(
            walk_items(
                data,
                text,
                hex_base + encode_items(items, k).len(),
                json_base + pretty_items(items, k, level).len(),
                (items.len() - k) as nat,
                depth,
                acc,
            ),
            acc,
            hex_base + encode_items(items, items.len()).len(),
            json_base + pretty_items(items, items.len(), level).len(),
            data,
            text,
        ),
    decreases items, items.len() - k,
{
    let n = items.len();
    if k == n {
        assert(acc.take(acc.len() as int) =~= acc);
    } else {
        let item = items[k as int];
        let hex = hex_base + encode_items(items, k).len();
        let json = json_base + pretty_items(items, k, level).len();
        let item_at = json + lead(k, level).len();
        lemma_item_bytes(items, k, data, hex_base);
        lemma_item_text(items, k, level, text, json_base);
        lemma_walk_value(item, level, data, hex, text, item_at, item_at, depth, acc);
        let first = walk_value(data, text, hex, item_at, depth, acc);
        let maps = first->Ok_0.0;
        lemma_walk_items(
            items,
            level,
            data,
            hex_base,
            text,
            json_base,
            depth,
            (k + 1) as nat,
            maps,
        );
        let second = walk_items(
            data,
            text,
            hex_base + encode_items(items, (k + 1) as nat).len(),
            json_base + pretty_items(items, (k + 1) as nat, level).len(),
            (n - k - 1) as nat,
            depth,
            maps,
        );
        lemma_well_chain(
            first,
            second,
            acc,
            hex_base + encode_items(items, n).len(),
            json_base + pretty_items(items, n, level).len(),
            data,
            text,
        );
    }
}

/// The mapping of a key is in sync.
pub proof fn lemma_key_in_sync(
    key: Seq<char>,
    data: Seq<u8>,
    hex: int,
    text: Seq<char>,
    key_at: int,
)
    requires
        encode_utf8(key).len() <= MAX_LEN,
        sits_at(data, hex, encode_str(key)),
        sits_at(text, key_at, string_literal(key)),
        text.len() <= usize::MAX,
        data.len() <= usize::MAX,
    ensures
        in_sync(
            data,
            text,
            mapping(
                key_at,
                string_literal(key).len(),
                hex,
                hex + encode_str(key).len(),
                MappingType::Key,
            ),
        ),
{
    lemma_decode_str(key, data, hex, 0);
    assert(key_text(Json::Str(key)) == key);
}

/// A walk that went well from the mappings with one more in-sync mapping
/// went well from the mappings without it.
pub proof fn lemma_well_push(
    w: Walked,
    acc: Seq<PositionMapping>,
    m: PositionMapping,
    hex_end: int,
    json_end: int,
    data: Seq<u8>,
    text: Seq<char>,
)
    requires
        walk_well(w, acc.push(m), hex_end, json_end, data, text),
        in_sync(data, text, m),
    ensures
        walk_well(w, acc, hex_end, json_end, data, text),
{
    let with_m = acc.push(m);
    let all = w->Ok_0.0;
    assert(all.take(acc.len() as int) =~= acc) by {
        assert(all.take(with_m.len() as int) == with_m);
        assert(with_m.take(acc.len() as int) =~= acc);
    }
    assert forall|j: int| acc.len() <= j < all.len() implies in_sync(
        data,
        text,
        #[trigger] all[j],
    ) by {
        if j == acc.len() {
            assert(all.take(with_m.len() as int)[j] == all[j]);
            assert(with_m[j] == m);
        }
    }
}

/// One step of the walk over the entries of a map, where the key is a
/// string that the text shows in quotes.
#[verifier::rlimit(30)]
pub proof fn lemma_entries_step(
    data: Seq<u8>,
    text: Seq<char>,
    hex: int,
    json: int,
    count: nat,
    depth: nat,
    acc: Seq<PositionMapping>,
    key: Seq<char>,
    key_end: int,
    key_at: int,
    value_at: int,
)
    requires
        count > 0,
        decode_value(data, hex, depth) == Ok::<(Json, int), UnpackError>((Json::Str(key), key_end)),
        skip_end(text, json, seq![',']) == key_at,
        0 <= key_at < text.len(),
        text[key_at] == '"',
        key_at + string_literal(key).len() <= usize::MAX,
        skip_end(text, key_at + string_literal(key).len(), seq![':']) == value_at,
        walk_value(
            data,
            text,
            key_end,
            value_at,
            depth,
            acc.push(mapping(key_at, string_literal(key).len(), hex, key_end, MappingType::Key)),
        ) is Ok,
    ensures
        ({
            let first = walk_value(
                data,
                text,
                key_end,
                value_at,
                depth,
                acc.push(
                    mapping(key_at, string_literal(key).len(), hex, key_end, MappingType::Key),
                ),
            );
            walk_entries(data, text, hex, json, count, depth, acc) == walk_entries(
                data,
                text,
                first->Ok_0.1,
                first->Ok_0.2,
                (count - 1) as nat,
                depth,
                first->Ok_0.0,
            )
        }),
{
    assert(key_text(Json::Str(key)) == key);
}

/// The walk over the entries of a map keeps step with their pretty text,
/// from the entry `k` on.
#[verifier::rlimit(40)]
pub proof fn lemma_walk_entries(
    entries: Seq<(Seq<char>, Json)>,
    level: nat,
    data: Seq<u8>,
    hex_base: int,
    text: Seq<char>,
    json_base: int,
    depth: nat,
    k: nat,
    acc: Seq<PositionMapping>,
)
    requires
        k <= entries.len(),
        forall|i: int| 0 <= i < entries.len() ==> (#[trigger] entries[i]).1.valid(),
        forall|i: int|
            0 <= i < entries.len() ==> encode_utf8((#[trigger] entries[i]).0).len() <= MAX_LEN
                && entries[i].1.encodable(),
        forall|i: int|
            0 <= i < entries.len() ==> (#[trigger] entries[i]).1.nests_within(depth as int),
        forall|i: int| 0 <= i < entries.len() ==> prints_cleanly((#[trigger] entries[i]).1),
        sits_at(data, hex_base, encode_entries(entries, entries.len())),
        sits_at(text, json_base, pretty_entries(entries, entries.len(), level)),
        text.len() <= usize::MAX,
        data.len() <= usize::MAX,
    ensures
        walk_well(
            walk_entries(
                data,
                text,
                hex_base + encode_entries(entries, k).len(),
                json_base + pretty_entries(entries, k, level).len(),
                (entries.len() - k) as nat,
                depth,
                acc,
            ),
            acc,
            hex_base + encode_entries(entries, entries.len()).len(),
            json_base + pretty_entries(entries, entries.len(), level).len(),
            data,
            text,
        ),
    decreases entries, entries.len() - k,
{
    let n = entries.len();
    if k == n {
        assert(acc.take(acc.len() as int) =~= acc);
    } else {
        let key = entries[k as int].0;
        let value = entries[k as int].1;
        let literal = string_literal(key);
        let hex = hex_base + encode_entries(entries, k).len();
        let json = json_base + pretty_entries(entries, k, level).len();
        let key_end = hex + encode_str(key).len();
        let key_at = json + lead(k, level).len();
        let value_at = key_at + literal.len() + 2;
        let end_hex = hex_base + encode_entries(entries, n).len();
        let end_json = json_base + pretty_entries(entries, n, level).len();
        assert(entries[k as int].1.valid() && prints_cleanly(entries[k as int].1));
        lemma_entry_bytes(entries, k, data, hex_base);
        lemma_entry_text(entries, k, level, text, json_base);
        lemma_decode_str(key, data, hex, depth);
        lemma_key_in_sync(key, data, hex, text, key_at);
        let m = mapping(key_at, literal.len(), hex, key_end, MappingType::Key);
        let with_key = acc.push(m);
        lemma_walk_value(value, level, data, key_end, text, value_at, value_at, depth, with_key);
        let first = walk_value(data, text, key_end, value_at, depth, with_key);
        let maps = first->Ok_0.0;
        lemma_walk_entries(
            entries,
            level,
            data,
            hex_base,
            text,
            json_base,
            depth,
            (k + 1) as nat,
            maps,
        );
        let second = walk_entries(
            data,
            text,
            hex_base + encode_entries(entries, (k + 1) as nat).len(),
            json_base + pretty_entries(entries, (k + 1) as nat, level).len(),
            (n - k - 1) as nat,
            depth,
            maps,
        );
        lemma_well_chain(first, second, with_key, end_hex, end_json, data, text);
        lemma_well_push(second, acc, m, end_hex, end_json, data, text);
        lemma_entries_step(
            data,
            text,
            hex,
            json,
            (n - k) as nat,
            depth,
            acc,
            key,
            key_end,
            key_at,
            value_at,
        );
    }
}

/// The walk keeps step with the printer: over the MessagePack bytes of a
/// value and the pretty text of the same value it runs to the end of both,
/// and every mapping that it makes is in sync, that is, its characters are
/// the very text of the scalar or key that its bytes hold.
pub proof fn walk_follows_the_print(v: Json)
    requires
        v.valid(),
        v.encodable(),
        v.nests_within(MAX_DEPTH as int),
        prints_cleanly(v),
        pretty_text(v, 0).len() <= usize::MAX,
        encode_bytes(v).len() <= usize::MAX,
    ensures
        walk_well(
            walk_value(encode_bytes(v), pretty_text(v, 0), 0, 0, MAX_DEPTH as nat, Seq::empty()),
            Seq::empty(),
            encode_bytes(v).len() as int,
            pretty_text(v, 0).len() as int,
            encode_bytes(v),
            pretty_text(v, 0),
        ),
{
    let data = encode_bytes(v);
    let text = pretty_text(v, 0);
    lemma_sits_whole(data);
    lemma_sits_whole(text);
    lemma_pretty_starts(v, 0);
    lemma_skip_run(text, 0, 0, Seq::empty());
    lemma_walk_value(v, 0, data, 0, text, 0, 0, MAX_DEPTH as nat, Seq::empty());
}

} // verus!
