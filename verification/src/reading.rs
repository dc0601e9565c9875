//! The parser reads back what the printer printed.

use crate::consistency::{lead, lemma_entry_place, lemma_item_place, lemma_line_break_blank};
use crate::fidelity::{
    lemma_decimal_digits, lemma_decimal_value, lemma_digits_run, lemma_number_read_back,
};
use crate::format::{decimal, escape_char, escaped, hex_digit_lower, int_text, string_literal};
use crate::hex::hex_value;
use crate::json::{
    bool_text, compact_text, line_break, null_text, pretty_entries, pretty_items, pretty_text,
    spaces,
};
use crate::parser::{
    blank_end, document, entries_at, escape_at, hex4, is_digit, is_json_space, items_at,
    lemma_blank_end_bounds, number_at, number_end, string_body, value_at,
};
use crate::roundtrip::lemma_new_key;
use crate::seqs::{lemma_sits_index, lemma_sits_part, lemma_sits_split, lemma_sits_whole, sits_at};
use crate::value::{object_insert, Json, MAX_DEPTH};
use vstd::prelude::*;

verus! {

/// Whether `v` holds no float.
pub open spec fn float_free(v: Json) -> bool
    decreases v,
{
    match v {
        Json::Float(bits) => false,
        Json::Array(items) => forall|i: int|
            0 <= i < items.len() ==> float_free(#[trigger] items[i]),
        Json::Object(entries) => forall|i: int|
            0 <= i < entries.len() ==> float_free((#[trigger] entries[i]).1),
        _ => true,
    }
}

/// Whether a number can end at `end`: the text ends there, or goes on with
/// a character that continues no number.
pub open spec fn number_stop(text: Seq<char>, end: int) -> bool {
    end >= text.len() || !(is_digit(text[end]) || text[end] == '.' || text[end] == 'e'
        || text[end] == 'E')
}

/// A run of JSON white space that ends at the end of the text, or before a
/// character that is none, is skipped as a whole.
pub proof fn lemma_blank_run(text: Seq<char>, pos: int, end: int)
    requires
        0 <= pos <= end <= text.len(),
        forall|k: int| pos <= k < end ==> is_json_space(#[trigger] text[k]),
        end == text.len() || !is_json_space(text[end]),
    ensures
        blank_end(text, pos) == end,
    decreases end - pos,
{
    if pos < end {
        assert(is_json_space(text[pos]));
        lemma_blank_run(text, pos + 1, end);
    }
}

/// Escaping goes character by character from the front, too.
pub proof fn lemma_escaped_front(s: Seq<char>)
    requires
        s.len() > 0,
    ensures
        escaped(s) == escape_char(s[0]) + escaped(s.drop_first()),
    decreases s.len(),
{
    if s.len() == 1 {
        assert(s.drop_last() =~= Seq::<char>::empty());
        assert(s.drop_first() =~= Seq::<char>::empty());
        assert(escaped(s) =~= escape_char(s[0]) + escaped(s.drop_first()));
    } else {
        lemma_escaped_front(s.drop_last());
        assert(s.drop_last().drop_first() =~= s.drop_first().drop_last());
        assert(s.drop_last()[0] == s[0]);
        assert(s.drop_first().last() == s.last());
        assert(escaped(s) =~= escape_char(s[0]) + escaped(s.drop_first()));
    }
}

/// A lower-case hexadecimal digit has the value it was made from.
pub proof fn lemma_lower_digit(d: nat)
    requires
        d < 16,
    ensures
        hex_value(hex_digit_lower(d)) == Some(d),
{
    let c = hex_digit_lower(d);
    if d < 10 {
        assert(c as u32 == 48 + d);
    } else {
        assert(c as u32 == 87 + d);
    }
}

/// The parser reads the escaped form of a character as that character.
#[verifier::rlimit(30)]
pub proof fn lemma_read_char(text: Seq<char>, pos: int, c: char, acc: Seq<char>)
    requires
        sits_at(text, pos, escape_char(c)),
    ensures
        string_body(text, pos, acc) == string_body(
            text,
            pos + escape_char(c).len(),
            acc.push(c),
        ),
{
    let form = escape_char(c);
    lemma_sits_index(text, pos, form, 0);
    if c == '"' || c == '\\' || c == '\u{8}' || c == '\u{c}' || c == '\n' || c == '\r' || c
        == '\t' {
        lemma_sits_index(text, pos, form, 1);
        assert(text[pos] == '\\');
    } else if (c as u32) < 0x20 {
        lemma_sits_index(text, pos, form, 1);
        lemma_sits_index(text, pos, form, 2);
        lemma_sits_index(text, pos, form, 3);
        lemma_sits_index(text, pos, form, 4);
        lemma_sits_index(text, pos, form, 5);
        let high = c as nat / 16;
        let low = c as nat % 16;
        lemma_lower_digit(high);
        lemma_lower_digit(low);
        lemma_lower_digit(0);
        assert(hex_digit_lower(0) == '0');
        assert(text[pos] == '\\');
        assert(text[pos + 1] == 'u');
        assert(hex4(text, pos + 2) == Some(c as nat));
        assert((c as nat) as char == c);
        assert(escape_at(text, pos + 1) == Some((c, pos + 6)));
    } else {
        assert(text[pos] == c);
    }
}

/// The parser reads the body of a string literal as the string that was
/// escaped.
pub proof fn lemma_read_string(s: Seq<char>, text: Seq<char>, pos: int, acc: Seq<char>)
    requires
        sits_at(text, pos, escaped(s) + seq!['"']),
    ensures
        string_body(text, pos, acc) == Some((acc + s, pos + escaped(s).len() + 1)),
    decreases s.len(),
{
    if s.len() == 0 {
        lemma_sits_index(text, pos, escaped(s) + seq!['"'], 0);
        assert(acc + s =~= acc);
    } else {
        let c = s[0];
        let rest = s.drop_first();
        lemma_escaped_front(s);
        assert(escaped(s) + seq!['"'] =~= escape_char(c) + (escaped(rest) + seq!['"']));
        lemma_sits_split(text, pos, escape_char(c), escaped(rest) + seq!['"']);
        lemma_read_char(text, pos, c, acc);
        lemma_read_string(rest, text, pos + escape_char(c).len(), acc.push(c));
        assert(acc.push(c) + rest =~= acc + s);
    }
}

/// The parser reads the text of an integer of 64 bits as that integer,
/// wherever the text stands.
#[verifier::rlimit(30)]
pub proof fn lemma_read_number(i: int, text: Seq<char>, pos: int)
    requires
        -0x8000_0000_0000_0000 <= i <= 0xffff_ffff_ffff_ffff,
        sits_at(text, pos, int_text(i)),
        number_stop(text, pos + int_text(i).len()),
    ensures
        number_at(text, pos) == Some((Json::Int(i), pos + int_text(i).len())),
        int_text(i).len() > 0,
        is_digit(text[pos]) || text[pos] == '-',
{
    let shown = int_text(i);
    let magnitude: nat = if i < 0 {
        (-i) as nat
    } else {
        i as nat
    };
    let digits = decimal(magnitude);
    lemma_decimal_digits(magnitude);
    lemma_decimal_value(magnitude);
    let lead: int = if i < 0 {
        1
    } else {
        0
    };
    if i < 0 {
        assert(shown =~= seq!['-'] + digits);
    } else {
        assert(shown =~= digits);
    }
    let start = pos + lead;
    let end = pos + shown.len();
    lemma_sits_index(text, pos, shown, 0);
    assert forall|k: int| start <= k < end implies is_digit(#[trigger] text[k]) by {
        lemma_sits_index(text, pos, shown, k - pos);
        assert(shown[k - pos] == digits[k - start]);
    }
    lemma_sits_index(text, pos, shown, lead);
    assert(text[start] == digits[0]);
    if text[start] == '0' {
        assert(magnitude == 0);
        assert(start + 1 == end);
    } else {
        lemma_digits_run(text, start, end);
    }
    assert(number_end(text, pos) == Some((end, true)));
    assert(text.subrange(start, end) =~= digits) by {
        lemma_sits_part(text, pos, shown, lead, shown.len() as int);
        assert(shown.subrange(lead, shown.len() as int) =~= digits);
    }
}

/// The parser reads the text of a scalar that is no float as that scalar.
#[verifier::rlimit(30)]
pub proof fn lemma_read_scalar(v: Json, text: Seq<char>, from: int, pos: int, depth: nat)
    requires
        !(v is Array) && !(v is Object) && !(v is Float),
        v.valid(),
        sits_at(text, pos, compact_text(v)),
        blank_end(text, from) == pos,
        number_stop(text, pos + compact_text(v).len()),
    ensures
        value_at(text, from, depth) == Some((v, pos + compact_text(v).len())),
        compact_text(v).len() > 0,
        text[pos] != ']' && text[pos] != '}' && !is_json_space(text[pos]),
{
    let shown = compact_text(v);
    match v {
        Json::Null => {
            lemma_sits_index(text, pos, shown, 0);
            assert(shown[0] == 'n');
        },
        Json::Bool(b) => {
            lemma_sits_index(text, pos, shown, 0);
            if b {
                assert(shown[0] == 't');
            } else {
                assert(shown[0] == 'f');
            }
        },
        Json::Int(i) => {
            lemma_read_number(i, text, pos);
        },
        Json::Str(s) => {
            lemma_sits_index(text, pos, shown, 0);
            assert(shown[0] == '"');
            assert(shown =~= seq!['"'] + (escaped(s) + seq!['"']));
            lemma_sits_split(text, pos, seq!['"'], escaped(s) + seq!['"']);
            lemma_read_string(s, text, pos + 1, Seq::empty());
            assert(Seq::<char>::empty() + s =~= s);
        },
        _ => {},
    }
}

/// The pretty text of a value without floats starts with a character that
/// is no white space, no comma and no closing bracket.
pub proof fn lemma_first_char(v: Json, level: nat)
    requires
        v.valid(),
        float_free(v),
    ensures
        pretty_text(v, level).len() > 0,
        !is_json_space(pretty_text(v, level)[0]),
        pretty_text(v, level)[0] != ']',
        pretty_text(v, level)[0] != '}',
        pretty_text(v, level)[0] != ',',
{
    match v {
        Json::Null => {
            assert(null_text()[0] == 'n');
        },
        Json::Bool(b) => {
            if b {
                assert(bool_text(b)[0] == 't');
            } else {
                assert(bool_text(b)[0] == 'f');
            }
        },
        Json::Int(i) => {
            lemma_number_read_back(i);
        },
        Json::Float(bits) => {},
        Json::Str(s) => {
            assert(string_literal(s)[0] == '"');
        },
        Json::Array(items) => {
            assert(pretty_text(v, level)[0] == '[');
        },
        Json::Object(entries) => {
            assert(pretty_text(v, level)[0] == '{');
        },
    }
}

/// The parser finds what stands behind a lead: behind the comma, where the
/// lead has one, it skips the line break.
#[verifier::rlimit(30)]
pub proof fn lemma_lead_read(text: Seq<char>, json: int, k: nat, level: nat, next: Seq<char>)
    requires
        sits_at(text, json, lead(k, level) + next),
        next.len() > 0,
        !is_json_space(next[0]),
    ensures
        sits_at(text, json + lead(k, level).len(), next),
        k == 0 ==> blank_end(text, json) == json + lead(k, level).len(),
        k >= 1 ==> text[json] == ',' && blank_end(text, json + 1) == json + lead(k, level).len(),
        lead(k, level).len() > 0,
        !is_json_space(text[json]) ==> text[json] == ',',
{
    let gap = lead(k, level);
    lemma_line_break_blank(level);
    lemma_sits_split(text, json, gap, next);
    let end = json + gap.len();
    lemma_sits_index(text, end, next, 0);
    lemma_sits_index(text, json, gap, 0);
    let begin: int = if k == 0 {
        json
    } else {
        json + 1
    };
    assert forall|j: int| begin <= j < end implies is_json_space(#[trigger] text[j]) by {
        lemma_sits_index(text, json, gap, j - json);
        let c = line_break(level)[j - begin];
        assert(gap[j - json] == c);
        if j - begin == 0 {
            assert(c == '\n');
        } else {
            assert(c == spaces(2 * level)[j - begin - 1]);
        }
    }
    lemma_blank_run(text, begin, end);
    if k >= 1 {
        assert(gap[0] == ',');
    } else {
        assert(gap[0] == '\n');
    }
}

/// The parser finds the closing bracket behind the last line break.
pub proof fn lemma_close_read(text: Seq<char>, pos: int, level: nat, close: char)
    requires
        sits_at(text, pos, line_break(level) + seq![close]),
        !is_json_space(close),
    ensures
        blank_end(text, pos) == pos + line_break(level).len(),
        pos + line_break(level).len() < text.len(),
        text[pos + line_break(level).len()] == close,
        text[pos] == '\n',
{
    let gap = line_break(level);
    lemma_line_break_blank(level);
    lemma_sits_split(text, pos, gap, seq![close]);
    let end = pos + gap.len();
    lemma_sits_index(text, end, seq![close], 0);
    lemma_sits_index(text, pos, gap, 0);
    assert(gap[0] == '\n');
    assert forall|j: int| pos <= j < end implies is_json_space(#[trigger] text[j]) by {
        lemma_sits_index(text, pos, gap, j - pos);
        let c = gap[j - pos];
        if j - pos == 0 {
            assert(c == '\n');
        } else {
            assert(c == spaces(2 * level)[j - pos - 1]);
        }
    }
    lemma_blank_run(text, pos, end);
}

/// The parser reads the pretty text of an array as that array.
#[verifier::rlimit(40)]
pub proof fn lemma_read_array(
    items: Seq<Json>,
    level: nat,
    text: Seq<char>,
    from: int,
    pos: int,
    depth: nat,
)
    requires
        Json::Array(items).valid(),
        float_free(Json::Array(items)),
        Json::Array(items).nests_within(depth as int),
        sits_at(text, pos, pretty_text(Json::Array(items), level)),
        blank_end(text, from) == pos,
    ensures
        value_at(text, from, depth) == Some(
            (Json::Array(items), pos + pretty_text(Json::Array(items), level).len()),
        ),
    decreases items, items.len() + 1,
{
    let v = Json::Array(items);
    let printed = pretty_text(v, level);
    let n = items.len();
    assert(v.valid() && float_free(v) && v.nests_within(depth as int));
    lemma_sits_index(text, pos, printed, 0);
    assert(printed[0] == '[');
    assert(depth > 0);
    if n == 0 {
        lemma_sits_index(text, pos, printed, 1);
        assert(printed[1] == ']');
        lemma_blank_run(text, pos + 1, pos + 1);
        assert(items =~= Seq::<Json>::empty());
    } else {
        let list = pretty_items(items, n, level + 1);
        let tail = line_break(level) + seq![']'];
        assert(printed =~= seq!['['] + (list + tail));
        lemma_sits_split(text, pos, seq!['['], list + tail);
        let inside = pos + 1;
        lemma_sits_split(text, inside, list, tail);
        assert(pretty_items(items, 0, level + 1).len() == 0);
        lemma_item_place(items, 0, level + 1, text, inside);
        lemma_first_char(items[0], level + 1);
        lemma_lead_read(text, inside, 0, level + 1, pretty_text(items[0], level + 1));
        let first_at = inside + lead(0, level + 1).len();
        lemma_sits_index(text, first_at, pretty_text(items[0], level + 1), 0);
        assert(text[first_at] != ']');
        lemma_read_items(
            items,
            level + 1,
            level,
            text,
            inside,
            (depth - 1) as nat,
            0,
            first_at,
            Seq::empty(),
        );
        assert(Seq::<Json>::empty() + items.skip(0) =~= items);
    }
}

/// The parser reads the pretty text of the items of an array, from the item
/// `k` on, up to the closing bracket.
#[verifier::rlimit(40)]
pub proof fn lemma_read_items(
    items: Seq<Json>,
    level: nat,
    outer: nat,
    text: Seq<char>,
    json_base: int,
    depth: nat,
    k: nat,
    from: int,
    acc: Seq<Json>,
)
    requires
        k < items.len(),
        forall|i: int| 0 <= i < items.len() ==> (#[trigger] items[i]).valid(),
        forall|i: int| 0 <= i < items.len() ==> float_free(#[trigger] items[i]),
        forall|i: int| 0 <= i < items.len() ==> (#[trigger] items[i]).nests_within(depth as int),
        sits_at(text, json_base, pretty_items(items, items.len(), level)),
        sits_at(
            text,
            json_base + pretty_items(items, items.len(), level).len(),
            line_break(outer) + seq![']'],
        ),
        blank_end(text, from) == json_base + pretty_items(items, k, level).len() + lead(
            k,
            level,
        ).len(),
    ensures
        items_at(text, from, depth, acc) == Some(
            (
                acc + items.skip(k as int),
                json_base + pretty_items(items, items.len(), level).len() + line_break(
                    outer,
                ).len() + 1,
            ),
        ),
    decreases items, items.len() - k,
{
    let n = items.len();
    let item = items[k as int];
    let shown = pretty_text(item, level);
    let json = json_base + pretty_items(items, k, level).len();
    let item_at = json + lead(k, level).len();
    let end = item_at + shown.len();
    lemma_blank_end_bounds(text, from);
    lemma_item_place(items, k, level, text, json_base);
    lemma_first_char(item, level);
    lemma_lead_read(text, json, k, level, shown);
    assert(end == json_base + pretty_items(items, (k + 1) as nat, level).len());
    if k + 1 < n {
        let after = items[(k + 1) as int];
        lemma_item_place(items, (k + 1) as nat, level, text, json_base);
        lemma_first_char(after, level);
        lemma_lead_read(text, end, (k + 1) as nat, level, pretty_text(after, level));
        assert(text[end] == ',');
        assert(number_stop(text, end));
        lemma_read_value(item, level, text, from, item_at, depth);
        lemma_blank_run(text, end, end);
        lemma_read_items(
            items,
            level,
            outer,
            text,
            json_base,
            depth,
            (k + 1) as nat,
            end + 1,
            acc.push(item),
        );
        assert(acc.push(item) + items.skip((k + 1) as int) =~= acc + items.skip(k as int));
    } else {
        lemma_close_read(text, end, outer, ']');
        assert(number_stop(text, end));
        lemma_read_value(item, level, text, from, item_at, depth);
        assert(acc.push(item) =~= acc + items.skip(k as int));
    }
}

/// The parser reads the pretty text of an object as that object.
#[verifier::rlimit(40)]
pub proof fn lemma_read_object(
    entries: Seq<(Seq<char>, Json)>,
    level: nat,
    text: Seq<char>,
    from: int,
    pos: int,
    depth: nat,
)
    requires
        Json::Object(entries).valid(),
        float_free(Json::Object(entries)),
        Json::Object(entries).nests_within(depth as int),
        sits_at(text, pos, pretty_text(Json::Object(entries), level)),
        blank_end(text, from) == pos,
    ensures
        value_at(text, from, depth) == Some(
            (Json::Object(entries), pos + pretty_text(Json::Object(entries), level).len()),
        ),
    decreases entries, entries.len() + 1,
{
    let v = Json::Object(entries);
    let printed = pretty_text(v, level);
    let n = entries.len();
    assert(v.valid() && float_free(v) && v.nests_within(depth as int));
    lemma_sits_index(text, pos, printed, 0);
    assert(printed[0] == '{');
    assert(depth > 0);
    if n == 0 {
        lemma_sits_index(text, pos, printed, 1);
        assert(printed[1] == '}');
        lemma_blank_run(text, pos + 1, pos + 1);
        assert(entries =~= Seq::<(Seq<char>, Json)>::empty());
    } else {
        let list = pretty_entries(entries, n, level + 1);
        let tail = line_break(level) + seq!['}'];
        assert(printed =~= seq!['{'] + (list + tail));
        lemma_sits_split(text, pos, seq!['{'], list + tail);
        let inside = pos + 1;
        lemma_sits_split(text, inside, list, tail);
        assert(pretty_entries(entries, 0, level + 1).len() == 0);
        lemma_entry_place(entries, 0, level + 1, text, inside);
        let literal = string_literal(entries[0].0);
        let rest = literal + (seq![':', ' '] + pretty_text(entries[0].1, level + 1));
        assert(rest[0] == literal[0]);
        assert(literal[0] == '"');
        lemma_lead_read(text, inside, 0, level + 1, rest);
        let first_at = inside + lead(0, level + 1).len();
        lemma_sits_index(text, first_at, rest, 0);
        assert(text[first_at] != '}');
        assert(entries.take(0) =~= Seq::<(Seq<char>, Json)>::empty());
        lemma_read_entries(entries, level + 1, level, text, inside, (depth - 1) as nat, 0, inside);
    }
}

/// The parser reads the pretty text of the entries of an object, from the
/// entry `k` on, up to the closing brace.
#[verifier::rlimit(60)]
pub proof fn lemma_read_entries(
    entries: Seq<(Seq<char>, Json)>,
    level: nat,
    outer: nat,
    text: Seq<char>,
    json_base: int,
    depth: nat,
    k: nat,
    from: int,
)
    requires
        k < entries.len(),
        Json::Object(entries).valid(),
        forall|i: int| 0 <= i < entries.len() ==> float_free((#[trigger] entries[i]).1),
        forall|i: int|
            0 <= i < entries.len() ==> (#[trigger] entries[i]).1.nests_within(depth as int),
        sits_at(text, json_base, pretty_entries(entries, entries.len(), level)),
        sits_at(
            text,
            json_base + pretty_entries(entries, entries.len(), level).len(),
            line_break(outer) + seq!['}'],
        ),
        0 <= from,
        blank_end(text, from) == json_base + pretty_entries(entries, k, level).len() + lead(
            k,
            level,
        ).len(),
    ensures
        entries_at(text, from, depth, entries.take(k as int)) == Some(
            (
                entries,
                json_base + pretty_entries(entries, entries.len(), level).len() + line_break(
                    outer,
                ).len() + 1,
            ),
        ),
    decreases entries, entries.len() - k,
{
    let n = entries.len();
    let key = entries[k as int].0;
    let value = entries[k as int].1;
    let literal = string_literal(key);
    let between = seq![':', ' '];
    let shown = pretty_text(value, level);
    let json = json_base + pretty_entries(entries, k, level).len();
    let key_at = json + lead(k, level).len();
    let key_end = key_at + literal.len();
    let value_at = key_end + 2;
    let end = value_at + shown.len();
    let before = entries.take(k as int);
    assert(entries[k as int].1.valid());
    lemma_blank_end_bounds(text, from);
    lemma_entry_place(entries, k, level, text, json_base);
    let rest = literal + (between + shown);
    assert(rest[0] == literal[0]);
    assert(literal[0] == '"');
    lemma_lead_read(text, json, k, level, rest);
    lemma_sits_index(text, key_at, rest, 0);
    lemma_sits_split(text, key_at, literal, between + shown);
    lemma_sits_split(text, key_end, between, shown);
    lemma_sits_index(text, key_end, between, 0);
    lemma_sits_index(text, key_end, between, 1);
    // the key
    assert(literal =~= seq!['"'] + (escaped(key) + seq!['"']));
    lemma_sits_split(text, key_at, seq!['"'], escaped(key) + seq!['"']);
    lemma_read_string(key, text, key_at + 1, Seq::empty());
    assert(Seq::<char>::empty() + key =~= key);
    assert(string_body(text, key_at + 1, Seq::empty()) == Some((key, key_end)));
    lemma_blank_run(text, key_end, key_end);
    // the value
    lemma_first_char(value, level);
    lemma_sits_index(text, value_at, shown, 0);
    lemma_blank_run(text, key_end + 1, value_at);
    // the key is new
    assert forall|i: int| 0 <= i < before.len() implies (#[trigger] before[i]).0 != key by {
        assert(before[i] == entries[i]);
    }
    lemma_new_key(before, key);
    assert(object_insert(before, key, value) =~= entries.take((k + 1) as int));
    assert(end == json_base + pretty_entries(entries, (k + 1) as nat, level).len());
    if k + 1 < n {
        lemma_entry_place(entries, (k + 1) as nat, level, text, json_base);
        let next_literal = string_literal(entries[(k + 1) as int].0);
        let next_rest = next_literal + (between + pretty_text(entries[(k + 1) as int].1, level));
        assert(next_rest[0] == next_literal[0]);
        assert(next_literal[0] == '"');
        lemma_lead_read(text, end, (k + 1) as nat, level, next_rest);
        assert(text[end] == ',');
        assert(number_stop(text, end));
        lemma_read_value(value, level, text, key_end + 1, value_at, depth);
        lemma_blank_run(text, end, end);
        lemma_read_entries(
            entries,
            level,
            outer,
            text,
            json_base,
            depth,
            (k + 1) as nat,
            end + 1,
        );
    } else {
        lemma_close_read(text, end, outer, '}');
        assert(number_stop(text, end));
        lemma_read_value(value, level, text, key_end + 1, value_at, depth);
        assert(entries.take(n as int) =~= entries);
    }
}

/// The parser reads the pretty text of a value without floats as that
/// value, wherever the text stands, provided that no number goes on behind
/// it.
pub proof fn lemma_read_value(
    v: Json,
    level: nat,
    text: Seq<char>,
    from: int,
    pos: int,
    depth: nat,
)
    requires
        v.valid(),
        float_free(v),
        v.nests_within(depth as int),
        sits_at(text, pos, pretty_text(v, level)),
        blank_end(text, from) == pos,
        number_stop(text, pos + pretty_text(v, level).len()),
    ensures
        value_at(text, from, depth) == Some((v, pos + pretty_text(v, level).len())),
    decreases v, 0nat,
{
    match v {
        Json::Array(items) => {
            lemma_read_array(items, level, text, from, pos, depth);
        },
        Json::Object(entries) => {
            lemma_read_object(entries, level, text, from, pos, depth);
        },
        _ => {
            lemma_read_scalar(v, text, from, pos, depth);
        },
    }
}

/// The parser reads back what the printer printed: the pretty text of a
/// valid value that holds no float and nests no deeper than `MAX_DEPTH` is
/// parsed to that value.
pub proof fn parse_inverts_print(v: Json)
    requires
        v.valid(),
        float_free(v),
        v.nests_within(MAX_DEPTH as int),
    ensures
        document(pretty_text(v, 0)) == Some(v),
{
    let text = pretty_text(v, 0);
    lemma_sits_whole(text);
    lemma_first_char(v, 0);
    lemma_blank_run(text, 0, 0);
    lemma_read_value(v, 0, text, 0, 0, MAX_DEPTH as nat);
    lemma_blank_run(text, text.len() as int, text.len() as int);
}

} // verus!
