//! JSON text for a value tree: the compact form and the pretty form with an
//! indent of two spaces.

use crate::boundary::{print_number, printed, unpack_number, unpacked};
use crate::cursor::{be_bytes, push_be};
use crate::format::{
    int_text, push_decimal, push_negative, push_str, push_string_literal, string_literal,
};
use crate::error::ConvertError;
use crate::format::to_text;
use crate::value::{lemma_array_view, lemma_object_view, Json, Value, MAX_DEPTH};
use vstd::prelude::*;

verus! {

/// The MessagePack encoding of the binary64 number with the bits `bits`.
pub open spec fn float_bytes(bits: u64) -> Seq<u8> {
    seq![0xcbu8] + be_bytes(bits as nat, 8)
}

/// The JSON text that serde_json prints for the number that `encoded` holds
/// in MessagePack; empty where that is no MessagePack.
pub open spec fn number_json_text(encoded: Seq<u8>) -> Seq<char> {
    match unpacked(encoded) {
        Some(number) => printed(number),
        None => Seq::empty(),
    }
}

/// The JSON text of the binary64 number with the bits `bits`, as serde_json
/// prints it.
pub open spec fn float_text(bits: u64) -> Seq<char> {
    number_json_text(float_bytes(bits))
}

/// The text of null.
pub open spec fn null_text() -> Seq<char> {
    seq!['n', 'u', 'l', 'l']
}

/// The text of the truth value `b`.
pub open spec fn bool_text(b: bool) -> Seq<char> {
    if b {
        seq!['t', 'r', 'u', 'e']
    } else {
        seq!['f', 'a', 'l', 's', 'e']
    }
}

/// `n` spaces.
pub open spec fn spaces(n: nat) -> Seq<char> {
    Seq::new(n, |i: int| ' ')
}

/// A line break followed by the indent of nesting level `level`.
pub open spec fn line_break(level: nat) -> Seq<char> {
    seq!['\n'] + spaces(2 * level)
}

/// JSON text without any white space.
pub open spec fn compact_text(v: Json) -> Seq<char>
    decreases v, 0nat,
{
    match v {
        Json::Null => null_text(),
        Json::Bool(b) => bool_text(b),
        Json::Int(i) => int_text(i),
        Json::Float(bits) => float_text(bits),
        Json::Str(s) => string_literal(s),
        Json::Array(items) => seq!['['] + compact_items(items, items.len()) + seq![']'],
        Json::Object(entries) => seq!['{'] + compact_entries(entries, entries.len()) + seq!['}'],
    }
}

/// The first `n` of `items` in compact form, with commas between them.
pub open spec fn compact_items(items: Seq<Json>, n: nat) -> Seq<char>
    decreases items, n,
{
    if n == 0 || n > items.len() {
        Seq::empty()
    } else if n == 1 {
        compact_text(items[0])
    } else {
        compact_items(items, (n - 1) as nat) + seq![','] + compact_text(items[n - 1])
    }
}

/// The first `n` of `entries` in compact form, with commas between them.
pub open spec fn compact_entries(entries: Seq<(Seq<char>, Json)>, n: nat) -> Seq<char>
    decreases entries, n,
{
    if n == 0 || n > entries.len() {
        Seq::empty()
    } else {
        let head = if n == 1 {
            Seq::empty()
        } else {
            compact_entries(entries, (n - 1) as nat) + seq![',']
        };
        head + string_literal(entries[n - 1].0) + seq![':'] + compact_text(entries[n - 1].1)
    }
}

/// JSON text with one item per line and two spaces of indent per nesting
/// level, for a value that stands at nesting level `level`. An empty
/// container is `[]` or `{}`.
pub open spec fn pretty_text(v: Json, level: nat) -> Seq<char>
    decreases v, 0nat,
{
    match v {
        Json::Array(items) => if items.len() == 0 {
            seq!['[', ']']
        } else {
            seq!['['] + pretty_items(items, items.len(), level + 1) + line_break(level) + seq![']']
        },
        Json::Object(entries) => if entries.len() == 0 {
            seq!['{', '}']
        } else {
            seq!['{'] + pretty_entries(entries, entries.len(), level + 1) + line_break(level)
                + seq!['}']
        },
        _ => compact_text(v),
    }
}

/// The first `n` of `items`, each on a line of its own at nesting level
/// `level`, with a comma after each but the last.
pub open spec fn pretty_items(items: Seq<Json>, n: nat, level: nat) -> Seq<char>
    decreases items, n,
{
    if n == 0 || n > items.len() {
        Seq::empty()
    } else {
        let head = if n == 1 {
            Seq::empty()
        } else {
            pretty_items(items, (n - 1) as nat, level) + seq![',']
        };
        head + line_break(level) + pretty_text(items[n - 1], level)
    }
}

/// The first `n` of `entries`, each on a line of its own at nesting level
/// `level`, as the key, a colon, a space and the value.
pub open spec fn pretty_entries(entries: Seq<(Seq<char>, Json)>, n: nat, level: nat) -> Seq<char>
    decreases entries, n,
{
    if n == 0 || n > entries.len() {
        Seq::empty()
    } else {
        let head = if n == 1 {
            Seq::empty()
        } else {
            pretty_entries(entries, (n - 1) as nat, level) + seq![',']
        };
        head + line_break(level) + string_literal(entries[n - 1].0) + seq![':', ' '] + pretty_text(
            entries[n - 1].1,
            level,
        )
    }
}

/// The MessagePack encoding of the binary64 number with the bits `bits`.
pub fn encode_float(bits: u64) -> (r: Vec<u8>)
    ensures
        r@ == float_bytes(bits),
{
    let mut r: Vec<u8> = Vec::new();
    r.push(0xcbu8);
    push_be(&mut r, bits, 8);
    assert(r@ =~= float_bytes(bits));
    r
}

/// The JSON text of the number that `encoded` holds in MessagePack.
pub fn number_text(encoded: &[u8]) -> (s: String)
    ensures
        s@ == number_json_text(encoded@),
{
    match unpack_number(encoded) {
        Some(number) => print_number(&number),
        None => String::new(),
    }
}

/// Appends the text of null.
fn push_null(out: &mut Vec<char>)
    ensures
        final(out)@ == old(out)@ + null_text(),
{
    out.push('n');
    out.push('u');
    out.push('l');
    out.push('l');
    assert(out@ =~= old(out)@ + null_text());
}

/// Appends the text of the truth value `b`.
fn push_bool(out: &mut Vec<char>, b: bool)
    ensures
        final(out)@ == old(out)@ + bool_text(b),
{
    if b {
        out.push('t');
        out.push('r');
        out.push('u');
        out.push('e');
    } else {
        out.push('f');
        out.push('a');
        out.push('l');
        out.push('s');
        out.push('e');
    }
    assert(out@ =~= old(out)@ + bool_text(b));
}

/// Appends a line break and the indent of nesting level `level`.
fn push_line_break(out: &mut Vec<char>, level: usize)
    ensures
        final(out)@ == old(out)@ + line_break(level as nat),
{
    out.push('\n');
    let mut i: usize = 0;
    while i < level
        invariant
            i <= level,
            out@ == old(out)@ + seq!['\n'] + spaces(2 * i as nat),
        decreases level - i,
    {
        out.push(' ');
        out.push(' ');
        i += 1;
        assert(out@ =~= old(out)@ + seq!['\n'] + spaces(2 * i as nat));
    }
    assert(out@ =~= old(out)@ + line_break(level as nat));
}

/// Appends the text of a value that is no container.
fn write_scalar(v: &Value, out: &mut Vec<char>)
    requires
        !(v is Array),
        !(v is Object),
    ensures
        final(out)@ == old(out)@ + compact_text(v@),
{
    match v {
        Value::Null => push_null(out),
        Value::Bool(b) => push_bool(out, *b),
        Value::UInt(n) => push_decimal(out, *n),
        Value::Int(i) => {
            if *i < 0 {
                push_negative(out, *i);
            } else {
                push_decimal(out, *i as u64);
            }
        },
        Value::Float(bits) => {
            let encoded = encode_float(*bits);
            let text = number_text(encoded.as_slice());
            push_str(out, text.as_str());
        },
        Value::Str(s) => push_string_literal(out, s.as_str()),
        _ => {},
    }
}

/// Appends the compact JSON text of `v` to `out`.
#[verifier::rlimit(30)]
pub fn write_compact(v: &Value, out: &mut Vec<char>)
    ensures
        final(out)@ == old(out)@ + compact_text(v@),
    decreases v,
{
    match v {
        Value::Array(items) => {
            let ghost model = v@->Array_0;
            proof {
                lemma_array_view(*v);
            }
            out.push('[');
            let mut i: usize = 0;
            while i < items.len()
                invariant
                    i <= items.len(),
                    v == Value::Array(*items),
                    model == v@->Array_0,
                    model.len() == items.len(),
                    forall|k: int| 0 <= k < items.len() ==> (#[trigger] model[k]) == items[k]@,
                    out@ == old(out)@ + seq!['['] + compact_items(model, i as nat),
                decreases items.len() - i,
            {
                if i > 0 {
                    out.push(',');
                }
                write_compact(&items[i], out);
                i += 1;
                assert(out@ =~= old(out)@ + seq!['['] + compact_items(model, i as nat));
            }
            out.push(']');
            assert(out@ =~= old(out)@ + compact_text(v@));
        },
        Value::Object(entries) => {
            let ghost model = v@->Object_0;
            proof {
                lemma_object_view(*v);
            }
            out.push('{');
            let mut i: usize = 0;
            while i < entries.len()
                invariant
                    i <= entries.len(),
                    v == Value::Object(*entries),
                    model == v@->Object_0,
                    model.len() == entries.len(),
                    forall|k: int|
                        0 <= k < entries.len() ==> (#[trigger] model[k]) == (
                            entries[k].0@,
                            entries[k].1@,
                        ),
                    out@ == old(out)@ + seq!['{'] + compact_entries(model, i as nat),
                decreases entries.len() - i,
            {
                if i > 0 {
                    out.push(',');
                }
                push_string_literal(out, entries[i].0.as_str());
                out.push(':');
                write_compact(&entries[i].1, out);
                i += 1;
                assert(out@ =~= old(out)@ + seq!['{'] + compact_entries(model, i as nat));
            }
            out.push('}');
            assert(out@ =~= old(out)@ + compact_text(v@));
        },
        _ => write_scalar(v, out),
    }
}

/// Whether containers nest at most `depth` levels deep in `v`.
pub fn fits_depth(v: &Value, depth: usize) -> (r: bool)
    ensures
        r == v@.nests_within(depth as int),
    decreases v,
{
    match v {
        Value::Array(items) => {
            proof {
                lemma_array_view(*v);
            }
            if depth == 0 {
                return false;
            }
            let ghost model = v@->Array_0;
            let mut i: usize = 0;
            while i < items.len()
                invariant
                    i <= items.len(),
                    depth > 0,
                    v == Value::Array(*items),
                    model == v@->Array_0,
                    model.len() == items.len(),
                    forall|k: int| 0 <= k < items.len() ==> (#[trigger] model[k]) == items[k]@,
                    forall|k: int| 0 <= k < i ==> (#[trigger] model[k]).nests_within(depth - 1),
                decreases items.len() - i,
            {
                if !fits_depth(&items[i], depth - 1) {
                    assert(!model[i as int].nests_within(depth - 1));
                    return false;
                }
                i += 1;
            }
            true
        },
        Value::Object(entries) => {
            proof {
                lemma_object_view(*v);
            }
            if depth == 0 {
                return false;
            }
            let ghost model = v@->Object_0;
            let mut i: usize = 0;
            while i < entries.len()
                invariant
                    i <= entries.len(),
                    depth > 0,
                    v == Value::Object(*entries),
                    model == v@->Object_0,
                    model.len() == entries.len(),
                    forall|k: int|
                        0 <= k < entries.len() ==> (#[trigger] model[k]) == (
                            entries[k].0@,
                            entries[k].1@,
                        ),
                    forall|k: int| 0 <= k < i ==> (#[trigger] model[k]).1.nests_within(depth - 1),
                decreases entries.len() - i,
            {
                if !fits_depth(&entries[i].1, depth - 1) {
                    assert(!model[i as int].1.nests_within(depth - 1));
                    return false;
                }
                i += 1;
            }
            true
        },
        _ => true,
    }
}

/// Appends the pretty JSON text of `v`, which stands at nesting level
/// `level` and nests at most `budget` levels deep, to `out`.
#[verifier::rlimit(30)]
pub fn write_pretty(v: &Value, level: usize, budget: usize, out: &mut Vec<char>)
    requires
        v@.nests_within(budget as int),
        level + budget <= usize::MAX,
    ensures
        final(out)@ == old(out)@ + pretty_text(v@, level as nat),
    decreases v,
{
    match v {
        Value::Array(items) => {
            let ghost model = v@->Array_0;
            proof {
                lemma_array_view(*v);
            }
            if items.len() == 0 {
                out.push('[');
                out.push(']');
                assert(out@ =~= old(out)@ + pretty_text(v@, level as nat));
                return ;
            }
            out.push('[');
            let mut i: usize = 0;
            while i < items.len()
                invariant
                    i <= items.len(),
                    budget > 0,
                    level + budget <= usize::MAX,
                    v == Value::Array(*items),
                    model == v@->Array_0,
                    model.len() == items.len(),
                    forall|k: int| 0 <= k < items.len() ==> (#[trigger] model[k]) == items[k]@,
                    forall|k: int|
                        0 <= k < items.len() ==> (#[trigger] model[k]).nests_within(budget - 1),
                    out@ == old(out)@ + seq!['['] + pretty_items(
                        model,
                        i as nat,
                        (level + 1) as nat,
                    ),
                decreases items.len() - i,
            {
                if i > 0 {
                    out.push(',');
                }
                push_line_break(out, level + 1);
                assert(model[i as int].nests_within(budget - 1));
                write_pretty(&items[i], level + 1, budget - 1, out);
                i += 1;
                assert(out@ =~= old(out)@ + seq!['['] + pretty_items(
                    model,
                    i as nat,
                    (level + 1) as nat,
                ));
            }
            push_line_break(out, level);
            out.push(']');
            assert(out@ =~= old(out)@ + pretty_text(v@, level as nat));
        },
        Value::Object(entries) => {
            let ghost model = v@->Object_0;
            proof {
                lemma_object_view(*v);
            }
            if entries.len() == 0 {
                out.push('{');
                out.push('}');
                assert(out@ =~= old(out)@ + pretty_text(v@, level as nat));
                return ;
            }
            out.push('{');
            let mut i: usize = 0;
            while i < entries.len()
                invariant
                    i <= entries.len(),
                    budget > 0,
                    level + budget <= usize::MAX,
                    v == Value::Object(*entries),
                    model == v@->Object_0,
                    model.len() == entries.len(),
                    forall|k: int|
                        0 <= k < entries.len() ==> (#[trigger] model[k]) == (
                            entries[k].0@,
                            entries[k].1@,
                        ),
                    forall|k: int|
                        0 <= k < entries.len() ==> (#[trigger] model[k]).1.nests_within(
                            budget - 1,
                        ),
                    out@ == old(out)@ + seq!['{'] + pretty_entries(
                        model,
                        i as nat,
                        (level + 1) as nat,
                    ),
                decreases entries.len() - i,
            {
                if i > 0 {
                    out.push(',');
                }
                push_line_break(out, level + 1);
                push_string_literal(out, entries[i].0.as_str());
                out.push(':');
                out.push(' ');
                assert(model[i as int].1.nests_within(budget - 1));
                write_pretty(&entries[i].1, level + 1, budget - 1, out);
                i += 1;
                assert(out@ =~= old(out)@ + seq!['{'] + pretty_entries(
                    model,
                    i as nat,
                    (level + 1) as nat,
                ));
            }
            push_line_break(out, level);
            out.push('}');
            assert(out@ =~= old(out)@ + pretty_text(v@, level as nat));
        },
        _ => write_scalar(v, out),
    }
}

/// The pretty JSON text of `v`: one item per line, two spaces of indent per
/// nesting level, object entries in their order, integers digit for digit.
///
/// Fails with `JsonSerialize` where `v` nests deeper than `MAX_DEPTH`.
pub fn to_json(v: &Value) -> (r: Result<String, ConvertError>)
    ensures
        r matches Ok(text) ==> text@ == pretty_text(v@, 0),
        r is Ok <==> v@.nests_within(MAX_DEPTH as int),
        r matches Err(e) ==> e == ConvertError::JsonSerialize,
{
    if !fits_depth(v, MAX_DEPTH) {
        return Err(ConvertError::JsonSerialize);
    }
    let mut out: Vec<char> = Vec::new();
    write_pretty(v, 0, MAX_DEPTH, &mut out);
    assert(out@ =~= pretty_text(v@, 0));
    Ok(to_text(out.as_slice()))
}

} // verus!
