//! The JSON parser: from text to a value tree.

use crate::boundary::{pack_number, packed, parse_number, parsed};

use crate::decoder::{decode_at, decode_value};
use crate::error::ConvertError;
use crate::format::{to_chars, to_text};
use crate::hex::digit_value;
use crate::value::{
    entries_model, insert_entry, lemma_array_view, lemma_entries_model, lemma_insert_nests,
    lemma_insert_valid, lemma_object_view, object_insert, Json, Value, MAX_DEPTH,
};
use vstd::prelude::*;
use vstd::slice::slice_subrange;

verus! {

/// Whether `c` is white space between JSON tokens.
pub open spec fn is_json_space(c: char) -> bool {
    c == ' ' || c == '\n' || c == '\r' || c == '\t'
}

/// The first position from `pos` on that holds no JSON white space.
pub open spec fn blank_end(text: Seq<char>, pos: int) -> int
    decreases text.len() - pos,
{
    if 0 <= pos < text.len() && is_json_space(text[pos]) {
        blank_end(text, pos + 1)
    } else {
        pos
    }
}

/// Whether `c` is a decimal digit.
pub open spec fn is_digit(c: char) -> bool {
    '0' <= c <= '9'
}

/// The first position from `pos` on that holds no decimal digit.
pub open spec fn digits_end(text: Seq<char>, pos: int) -> int
    decreases text.len() - pos,
{
    if 0 <= pos < text.len() && is_digit(text[pos]) {
        digits_end(text, pos + 1)
    } else {
        pos
    }
}

/// The number that the decimal digits `digits` spell.
pub open spec fn decimal_value(digits: Seq<char>) -> nat
    decreases digits.len(),
{
    if digits.len() == 0 {
        0
    } else {
        decimal_value(digits.drop_last()) * 10 + (digits.last() as u32 - 48) as nat
    }
}

/// Whether `word` stands in `text` at `pos`.
pub open spec fn has_word(text: Seq<char>, pos: int, word: Seq<char>) -> bool {
    0 <= pos && pos + word.len() <= text.len() && text.subrange(pos, pos + word.len()) == word
}

/// The value of the hexadecimal digit `c`.
pub open spec fn hex_digit_value(c: char) -> Option<nat> {
    crate::hex::hex_value(c)
}

/// The number that the four hexadecimal digits at `pos` spell.
pub open spec fn hex4(text: Seq<char>, pos: int) -> Option<nat> {
    if 0 <= pos && pos + 4 <= text.len() && hex_digit_value(text[pos]) is Some && hex_digit_value(
        text[pos + 1],
    ) is Some && hex_digit_value(text[pos + 2]) is Some && hex_digit_value(text[pos + 3]) is Some {
        Some(
            hex_digit_value(text[pos]).unwrap() * 4096 + hex_digit_value(text[pos + 1]).unwrap()
                * 256 + hex_digit_value(text[pos + 2]).unwrap() * 16 + hex_digit_value(
                text[pos + 3],
            ).unwrap(),
        )
    } else {
        None
    }
}

/// The character that the escape at `pos` stands for, where `pos` is the
/// place behind the backslash, and the position after the escape.
///
/// `\u` takes four hexadecimal digits. A high surrogate must be followed by
/// the escape of a low surrogate, and the two make one character; a low
/// surrogate alone is refused.
pub open spec fn escape_at(text: Seq<char>, pos: int) -> Option<(char, int)> {
    if pos < 0 || pos >= text.len() {
        None
    } else {
        let c = text[pos];
        if c == '"' || c == '\\' || c == '/' {
            Some((c, pos + 1))
        } else if c == 'b' {
            Some(('\u{8}', pos + 1))
        } else if c == 'f' {
            Some(('\u{c}', pos + 1))
        } else if c == 'n' {
            Some(('\n', pos + 1))
        } else if c == 'r' {
            Some(('\r', pos + 1))
        } else if c == 't' {
            Some(('\t', pos + 1))
        } else if c == 'u' {
            match hex4(text, pos + 1) {
                None => None,
                Some(unit) => if unit < 0xd800 || unit > 0xdfff {
                    Some((unit as char, pos + 5))
                } else if unit >= 0xdc00 {
                    None
                } else if has_word(text, pos + 5, seq!['\\', 'u']) {
                    match hex4(text, pos + 7) {
                        None => None,
                        Some(low) => if 0xdc00 <= low <= 0xdfff {
                            Some(
                                (
                                    (0x1_0000 + (unit - 0xd800) * 0x400 + (low - 0xdc00)) as char,
                                    pos + 11,
                                ),
                            )
                        } else {
                            None
                        },
                    }
                } else {
                    None
                },
            }
        } else {
            None
        }
    }
}

/// `acc` followed by the characters of the string whose body starts at
/// `pos`, and the position after its closing quote. Control characters must
/// be escaped.
pub open spec fn string_body(text: Seq<char>, pos: int, acc: Seq<char>) -> Option<(Seq<char>, int)>
    decreases text.len() - pos,
{
    if pos < 0 || pos >= text.len() {
        None
    } else {
        let c = text[pos];
        if c == '"' {
            Some((acc, pos + 1))
        } else if c == '\\' {
            match escape_at(text, pos + 1) {
                None => None,
                Some((e, next)) => if next <= pos {
                    None
                } else {
                    string_body(text, next, acc.push(e))
                },
            }
        } else if (c as u32) < 0x20 {
            None
        } else {
            string_body(text, pos + 1, acc.push(c))
        }
    }
}

/// Where the number that starts at `pos` ends, and whether it is written
/// without fraction and exponent. A number is an optional minus, then zero
/// or digits that do not start with zero, then an optional fraction of a dot
/// and digits, then an optional exponent of `e` or `E`, an optional sign and
/// digits.
pub open spec fn number_end(text: Seq<char>, pos: int) -> Option<(int, bool)> {
    let start = if 0 <= pos < text.len() && text[pos] == '-' {
        pos + 1
    } else {
        pos
    };
    if start < 0 || start >= text.len() || !is_digit(text[start]) {
        None
    } else {
        let whole = if text[start] == '0' {
            start + 1
        } else {
            digits_end(text, start)
        };
        let fraction = if whole < text.len() && text[whole] == '.' {
            Some(digits_end(text, whole + 1))
        } else {
            None
        };
        if fraction is Some && fraction.unwrap() == whole + 1 {
            None
        } else {
            let mantissa = if fraction is Some {
                fraction.unwrap()
            } else {
                whole
            };
            if mantissa < text.len() && (text[mantissa] == 'e' || text[mantissa] == 'E') {
                let signed = if mantissa + 1 < text.len() && (text[mantissa + 1] == '+'
                    || text[mantissa + 1] == '-') {
                    mantissa + 2
                } else {
                    mantissa + 1
                };
                let end = digits_end(text, signed);
                if end == signed {
                    None
                } else {
                    Some((end, false))
                }
            } else {
                Some((mantissa, fraction is None))
            }
        }
    }
}

/// The value of a number that is no integer of 64 bits: what serde_json
/// parses from `token`, taken over through the MessagePack bytes that
/// rmp-serde writes for it.
pub open spec fn wide_number(token: Seq<char>) -> Option<Json> {
    match parsed(token) {
        None => None,
        Some(number) => match packed(number) {
            None => None,
            Some(bytes) => match decode_value(bytes, 0, 0) {
                Ok((v, end)) => if v is Float || v is Int {
                    Some(v)
                } else {
                    None
                },
                Err(e) => None,
            },
        },
    }
}

/// The number that starts at `pos`, and the position after it. An integer
/// that fits in 64 bits is taken digit for digit.
pub open spec fn number_at(text: Seq<char>, pos: int) -> Option<(Json, int)> {
    match number_end(text, pos) {
        None => None,
        Some((end, plain)) => {
            let negative = text[pos] == '-';
            let digits = if negative {
                text.subrange(pos + 1, end)
            } else {
                text.subrange(pos, end)
            };
            let magnitude = decimal_value(digits);
            if plain && !negative && magnitude <= 0xffff_ffff_ffff_ffff {
                Some((Json::Int(magnitude as int), end))
            } else if plain && negative && 1 <= magnitude <= 0x8000_0000_0000_0000 {
                Some((Json::Int(-magnitude), end))
            } else {
                match wide_number(text.subrange(pos, end)) {
                    Some(v) => Some((v, end)),
                    None => None,
                }
            }
        },
    }
}

/// The value that starts at or after `pos`, behind white space, and the
/// position after it. Containers may still nest `depth` levels below this
/// point.
pub open spec fn value_at(text: Seq<char>, pos: int, depth: nat) -> Option<(Json, int)>
    decreases depth, 0nat, 0nat,
{
    let at = blank_end(text, pos);
    if at < 0 || at >= text.len() {
        None
    } else {
        let c = text[at];
        if c == 'n' {
            if has_word(text, at, seq!['n', 'u', 'l', 'l']) {
                Some((Json::Null, at + 4))
            } else {
                None
            }
        } else if c == 't' {
            if has_word(text, at, seq!['t', 'r', 'u', 'e']) {
                Some((Json::Bool(true), at + 4))
            } else {
                None
            }
        } else if c == 'f' {
            if has_word(text, at, seq!['f', 'a', 'l', 's', 'e']) {
                Some((Json::Bool(false), at + 5))
            } else {
                None
            }
        } else if c == '"' {
            match string_body(text, at + 1, Seq::empty()) {
                Some((s, end)) => Some((Json::Str(s), end)),
                None => None,
            }
        } else if c == '[' {
            if depth == 0 {
                None
            } else {
                let inside = blank_end(text, at + 1);
                if 0 <= inside < text.len() && text[inside] == ']' {
                    Some((Json::Array(Seq::empty()), inside + 1))
                } else {
                    match items_at(text, inside, (depth - 1) as nat, Seq::empty()) {
                        Some((items, end)) => Some((Json::Array(items), end)),
                        None => None,
                    }
                }
            }
        } else if c == '{' {
            if depth == 0 {
                None
            } else {
                let inside = blank_end(text, at + 1);
                if 0 <= inside < text.len() && text[inside] == '}' {
                    Some((Json::Object(Seq::empty()), inside + 1))
                } else {
                    match entries_at(text, inside, (depth - 1) as nat, Seq::empty()) {
                        Some((entries, end)) => Some((Json::Object(entries), end)),
                        None => None,
                    }
                }
            }
        } else {
            number_at(text, at)
        }
    }
}

/// `acc` followed by the items of an array from `pos` on, up to its closing
/// bracket, and the position after that bracket.
pub open spec fn items_at(
    text: Seq<char>,
    pos: int,
    depth: nat,
    acc: Seq<Json>,
) -> Option<(Seq<Json>, int)>
    decreases depth, 1nat, text.len() - pos,
{
    match value_at(text, pos, depth) {
        None => None,
        Some((item, end)) => {
            let next = blank_end(text, end);
            if end <= pos || next < end || next >= text.len() {
                None
            } else if text[next] == ',' {
                items_at(text, next + 1, depth, acc.push(item))
            } else if text[next] == ']' {
                Some((acc.push(item), next + 1))
            } else {
                None
            }
        },
    }
}

/// `acc` after the entries of an object from `pos` on, up to its closing
/// brace, have been set in it one after the other, and the position after
/// that brace.
pub open spec fn entries_at(
    text: Seq<char>,
    pos: int,
    depth: nat,
    acc: Seq<(Seq<char>, Json)>,
) -> Option<(Seq<(Seq<char>, Json)>, int)>
    decreases depth, 1nat, text.len() - pos,
{
    let at = blank_end(text, pos);
    if at < pos || at >= text.len() || text[at] != '"' {
        None
    } else {
        match string_body(text, at + 1, Seq::empty()) {
            None => None,
            Some((key, key_end)) => {
                let colon = blank_end(text, key_end);
                if key_end <= at || colon < key_end || colon >= text.len() || text[colon] != ':' {
                    None
                } else {
                    match value_at(text, colon + 1, depth) {
                        None => None,
                        Some((value, end)) => {
                            let next = blank_end(text, end);
                            let now = object_insert(acc, key, value);
                            if end <= colon || next < end || next >= text.len() {
                                None
                            } else if text[next] == ',' {
                                entries_at(text, next + 1, depth, now)
                            } else if text[next] == '}' {
                                Some((now, next + 1))
                            } else {
                                None
                            }
                        },
                    }
                }
            },
        }
    }
}

/// The value that `text` spells: one JSON value with nothing but white
/// space around it.
pub open spec fn document(text: Seq<char>) -> Option<Json> {
    match value_at(text, 0, MAX_DEPTH as nat) {
        Some((v, end)) => if blank_end(text, end) >= text.len() {
            Some(v)
        } else {
            None
        },
        None => None,
    }
}

/// Skipping white space never goes back, and never beyond the end.
pub proof fn lemma_blank_end_bounds(text: Seq<char>, pos: int)
    ensures
        pos <= blank_end(text, pos),
        pos <= text.len() ==> blank_end(text, pos) <= text.len(),
    decreases text.len() - pos,
{
    if 0 <= pos < text.len() && is_json_space(text[pos]) {
        lemma_blank_end_bounds(text, pos + 1);
    }
}

/// The first position from `pos` on that holds no JSON white space.
fn skip_blank(text: &[char], pos: usize) -> (end: usize)
    ensures
        end == blank_end(text@, pos as int),
        pos <= end,
        pos <= text.len() ==> end <= text.len(),
{
    let mut p: usize = pos;
    proof {
        lemma_blank_end_bounds(text@, pos as int);
    }
    while p < text.len() && (text[p] == ' ' || text[p] == '\n' || text[p] == '\r' || text[p]
        == '\t')
        invariant
            pos <= p,
            blank_end(text@, pos as int) == blank_end(text@, p as int),
        decreases text.len() - p,
    {
        p += 1;
    }
    p
}

/// The first position from `pos` on that holds no decimal digit.
fn skip_digits(text: &[char], pos: usize) -> (end: usize)
    requires
        pos <= text.len(),
    ensures
        end == digits_end(text@, pos as int),
        pos <= end <= text.len(),
        forall|k: int| pos <= k < end ==> is_digit(#[trigger] text@[k]),
{
    let mut p: usize = pos;
    while p < text.len() && '0' <= text[p] && text[p] <= '9'
        invariant
            pos <= p <= text.len(),
            digits_end(text@, pos as int) == digits_end(text@, p as int),
            forall|k: int| pos <= k < p ==> is_digit(#[trigger] text@[k]),
        decreases text.len() - p,
    {
        p += 1;
    }
    p
}

/// The number that the four hexadecimal digits at `pos` spell.
fn read_hex4(text: &[char], pos: usize) -> (r: Option<u32>)
    ensures
        match r {
            Some(n) => hex4(text@, pos as int) == Some(n as nat) && n <= 0xffff,
            None => hex4(text@, pos as int) is None,
        },
{
    if pos > text.len() || text.len() - pos < 4 {
        return None;
    }
    let a = match digit_value(text[pos]) {
        Some(d) => d,
        None => {
            return None;
        },
    };
    let b = match digit_value(text[pos + 1]) {
        Some(d) => d,
        None => {
            return None;
        },
    };
    let c = match digit_value(text[pos + 2]) {
        Some(d) => d,
        None => {
            return None;
        },
    };
    let d = match digit_value(text[pos + 3]) {
        Some(d) => d,
        None => {
            return None;
        },
    };
    Some(a as u32 * 4096 + b as u32 * 256 + c as u32 * 16 + d as u32)
}

/// The character that the escape behind a backslash stands for.
#[verifier::rlimit(30)]
fn read_escape(text: &[char], pos: usize) -> (r: Option<(char, usize)>)
    ensures
        match escape_at(text@, pos as int) {
            Some((c, end)) => r == Some((c, end as usize)) && pos < end <= text.len(),
            None => r is None,
        },
{
    if pos >= text.len() {
        return None;
    }
    let c = text[pos];
    if c == '"' || c == '\\' || c == '/' {
        Some((c, pos + 1))
    } else if c == 'b' {
        Some(('\u{8}', pos + 1))
    } else if c == 'f' {
        Some(('\u{c}', pos + 1))
    } else if c == 'n' {
        Some(('\n', pos + 1))
    } else if c == 'r' {
        Some(('\r', pos + 1))
    } else if c == 't' {
        Some(('\t', pos + 1))
    } else if c == 'u' {
        let unit = match read_hex4(text, pos + 1) {
            Some(n) => n,
            None => {
                return None;
            },
        };
        if unit < 0xd800 || unit > 0xdfff {
            match char::from_u32(unit) {
                Some(made) => Some((made, pos + 5)),
                None => None,
            }
        } else if unit >= 0xdc00 {
            None
        } else {
            if text.len() - pos < 7 || text[pos + 5] != '\\' || text[pos + 6] != 'u' {
                assert(!has_word(text@, pos + 5, seq!['\\', 'u'])) by {
                    if has_word(text@, pos + 5, seq!['\\', 'u']) {
                        let part = text@.subrange(pos + 5, pos + 7);
                        assert(part[0] == text@[pos + 5]);
                        assert(part[1] == text@[pos + 6]);
                    }
                }
                return None;
            }
            assert(has_word(text@, pos + 5, seq!['\\', 'u'])) by {
                assert(text@.subrange(pos + 5, pos + 7) =~= seq!['\\', 'u']);
            }
            let low = match read_hex4(text, pos + 7) {
                Some(n) => n,
                None => {
                    return None;
                },
            };
            if low < 0xdc00 || low > 0xdfff {
                return None;
            }
            let point: u32 = 0x1_0000 + (unit - 0xd800) * 0x400 + (low - 0xdc00);
            match char::from_u32(point) {
                Some(made) => Some((made, pos + 11)),
                None => None,
            }
        }
    } else {
        None
    }
}

/// Reads the body of a string from `pos` on, up to its closing quote.
fn read_string(text: &[char], pos: usize) -> (r: Option<(String, usize)>)
    ensures
        match string_body(text@, pos as int, Seq::empty()) {
            Some((s, end)) => r matches Some((found, e)) && found@ == s && e == end && pos < e
                <= text.len(),
            None => r is None,
        },
{
    let mut acc: Vec<char> = Vec::new();
    let mut p: usize = pos;
    loop
        invariant
            pos <= p,
            string_body(text@, pos as int, Seq::empty()) == string_body(text@, p as int, acc@),
        decreases text.len() - p,
    {
        if p >= text.len() {
            return None;
        }
        let c = text[p];
        if c == '"' {
            return Some((to_text(acc.as_slice()), p + 1));
        } else if c == '\\' {
            match read_escape(text, p + 1) {
                None => {
                    return None;
                },
                Some((e, next)) => {
                    acc.push(e);
                    p = next;
                },
            }
        } else if (c as u32) < 0x20 {
            return None;
        } else {
            acc.push(c);
            p += 1;
        }
    }
}

/// Where the number that starts at `pos` ends, and whether it is written
/// without fraction and exponent.
fn scan_number(text: &[char], pos: usize) -> (r: Option<(usize, bool)>)
    requires
        pos <= text.len(),
    ensures
        match number_end(text@, pos as int) {
            Some((end, plain)) => r == Some((end as usize, plain)) && pos < end <= text.len() && (
            text@[pos as int] == '-' ==> pos + 1 < end) && (plain ==> forall|k: int|
                pos <= k < end && !(k == pos && text@[k] == '-') ==> is_digit(#[trigger] text@[k])),
            None => r is None,
        },
{
    let start: usize = if pos < text.len() && text[pos] == '-' {
        pos + 1
    } else {
        pos
    };
    if start >= text.len() || !('0' <= text[start] && text[start] <= '9') {
        return None;
    }
    let whole: usize = if text[start] == '0' {
        start + 1
    } else {
        skip_digits(text, start + 1)
    };
    assert(is_digit(text@[start as int]));
    let mut mantissa: usize = whole;
    let mut plain = true;
    if whole < text.len() && text[whole] == '.' {
        let fraction = skip_digits(text, whole + 1);
        if fraction == whole + 1 {
            return None;
        }
        mantissa = fraction;
        plain = false;
    }
    if mantissa < text.len() && (text[mantissa] == 'e' || text[mantissa] == 'E') {
        let signed: usize = if mantissa + 1 < text.len() && (text[mantissa + 1] == '+'
            || text[mantissa + 1] == '-') {
            mantissa + 2
        } else {
            mantissa + 1
        };
        let end = skip_digits(text, signed);
        if end == signed {
            return None;
        }
        Some((end, false))
    } else {
        Some((mantissa, plain))
    }
}

/// Reads the number that starts at `pos`.
#[verifier::rlimit(30)]
fn read_number(text: &[char], pos: usize) -> (r: Option<(Value, usize)>)
    requires
        pos <= text.len(),
    ensures
        parsed_as(r, number_at(text@, pos as int)),
        r matches Some((v, end)) ==> pos < end <= text.len() && v.well_formed() && !(v is Array)
            && !(v is Object),
{
    let (end, plain) = match scan_number(text, pos) {
        Some(found) => found,
        None => {
            return None;
        },
    };
    let negative = text[pos] == '-';
    let start: usize = if negative {
        pos + 1
    } else {
        pos
    };
    let ghost digits = text@.subrange(start as int, end as int);
    if plain {
        let mut acc: u64 = 0;
        let mut overflow = false;
        let mut k: usize = start;
        assert(digits.take(0) =~= Seq::<char>::empty());
        while k < end
            invariant
                start <= k <= end <= text.len(),
                digits == text@.subrange(start as int, end as int),
                forall|j: int| start <= j < end ==> is_digit(#[trigger] text@[j]),
                !overflow ==> acc == decimal_value(digits.take(k - start)),
                overflow ==> decimal_value(digits.take(k - start)) > u64::MAX,
            decreases end - k,
        {
            let ghost before = digits.take(k - start);
            let ghost after = digits.take(k - start + 1);
            proof {
                assert(after.drop_last() =~= before);
                assert(after.last() == text@[k as int]);
                assert(is_digit(text@[k as int]));
            }
            let d: u64 = (text[k] as u32 - 48) as u64;
            if !overflow {
                match acc.checked_mul(10) {
                    Some(m) => match m.checked_add(d) {
                        Some(n) => {
                            acc = n;
                        },
                        None => {
                            overflow = true;
                        },
                    },
                    None => {
                        overflow = true;
                    },
                }
            }
            k += 1;
        }
        assert(digits.take(end - start) =~= digits);
        if !overflow {
            if !negative {
                return Some((Value::UInt(acc), end));
            }
            if 1 <= acc && acc <= 0x8000_0000_0000_0000 {
                let i: i64 = if acc == 0x8000_0000_0000_0000 {
                    i64::MIN
                } else {
                    -(acc as i64)
                };
                return Some((Value::Int(i), end));
            }
        }
    }
    let token = to_text(slice_subrange(text, pos, end));
    let number = match parse_number(token.as_str()) {
        Some(n) => n,
        None => {
            return None;
        },
    };
    let bytes = match pack_number(&number) {
        Some(b) => b,
        None => {
            return None;
        },
    };
    match decode_at(bytes.as_slice(), 0, 0) {
        Ok((v, used)) => match v {
            Value::Float(bits) => Some((Value::Float(bits), end)),
            Value::UInt(n) => Some((Value::UInt(n), end)),
            Value::Int(i) => Some((Value::Int(i), end)),
            _ => None,
        },
        Err(e) => None,
    }
}

/// Whether the outcome `r` of the parser is what the model `m` asks for.
pub open spec fn parsed_as(r: Option<(Value, usize)>, m: Option<(Json, int)>) -> bool {
    match m {
        Some((json, end)) => r matches Some((v, e)) && v@ == json && e == end,
        None => r is None,
    }
}

/// Whether the four characters `a`, `b`, `c`, `d` stand at `pos`.
fn at_word(text: &[char], pos: usize, a: char, b: char, c: char, d: char) -> (r: bool)
    requires
        pos < text.len(),
    ensures
        r == has_word(text@, pos as int, seq![a, b, c, d]),
{
    if text.len() - pos < 4 {
        return false;
    }
    let r = text[pos] == a && text[pos + 1] == b && text[pos + 2] == c && text[pos + 3] == d;
    proof {
        let part = text@.subrange(pos as int, pos + 4);
        assert(part[0] == text@[pos as int]);
        assert(part[1] == text@[pos + 1]);
        assert(part[2] == text@[pos + 2]);
        assert(part[3] == text@[pos + 3]);
        if r {
            assert(part =~= seq![a, b, c, d]);
        }
    }
    r
}

/// Whether `false` stands at `pos`.
fn at_false(text: &[char], pos: usize) -> (r: bool)
    requires
        pos < text.len(),
    ensures
        r == has_word(text@, pos as int, seq!['f', 'a', 'l', 's', 'e']),
{
    if text.len() - pos < 5 {
        return false;
    }
    let r = text[pos] == 'f' && text[pos + 1] == 'a' && text[pos + 2] == 'l' && text[pos + 3]
        == 's' && text[pos + 4] == 'e';
    proof {
        let part = text@.subrange(pos as int, pos + 5);
        assert(part[0] == text@[pos as int]);
        assert(part[1] == text@[pos + 1]);
        assert(part[2] == text@[pos + 2]);
        assert(part[3] == text@[pos + 3]);
        assert(part[4] == text@[pos + 4]);
        if r {
            assert(part =~= seq!['f', 'a', 'l', 's', 'e']);
        }
    }
    r
}

/// Reads the items of an array from `pos` on, up to its closing bracket.
#[verifier::rlimit(30)]
fn read_items(text: &[char], pos: usize, depth: usize) -> (r: Option<(Vec<Value>, usize)>)
    ensures
        match items_at(text@, pos as int, depth as nat, Seq::empty()) {
            Some((items, end)) => r matches Some((v, e)) && Value::Array(v)@ == Json::Array(items)
                && e == end && pos < e <= text.len() && Value::Array(v).well_formed()
                && Value::Array(v)@.nests_within(depth + 1),
            None => r is None,
        },
    decreases depth, 1nat,
{
    let mut items: Vec<Value> = Vec::new();
    let ghost mut acc: Seq<Json> = Seq::empty();
    let mut cur: usize = pos;
    loop
        invariant
            pos <= cur,
            acc.len() == items.len(),
            forall|k: int| 0 <= k < items.len() ==> (#[trigger] acc[k]) == items[k]@,
            forall|k: int| 0 <= k < items.len() ==> (#[trigger] items[k]).well_formed(),
            forall|k: int| 0 <= k < acc.len() ==> (#[trigger] acc[k]).nests_within(depth as int),
            items_at(text@, pos as int, depth as nat, Seq::empty()) == items_at(
                text@,
                cur as int,
                depth as nat,
                acc,
            ),
        decreases text.len() - cur,
    {
        let (item, end) = match read_value(text, cur, depth) {
            Some(found) => found,
            None => {
                return None;
            },
        };
        let next = skip_blank(text, end);
        if next >= text.len() {
            return None;
        }
        proof {
            acc = acc.push(item@);
        }
        items.push(item);
        if text[next] == ',' {
            cur = next + 1;
        } else if text[next] == ']' {
            proof {
                let v = Value::Array(items);
                lemma_array_view(v);
                assert(v@->Array_0 =~= acc);
                assert forall|k: int| 0 <= k < acc.len() implies (#[trigger] acc[k]).valid() by {
                    assert(items[k].well_formed());
                }
            }
            return Some((items, next + 1));
        } else {
            return None;
        }
    }
}

/// Reads the entries of an object from `pos` on, up to its closing brace.
#[verifier::rlimit(30)]
fn read_entries(text: &[char], pos: usize, depth: usize) -> (r: Option<
    (Vec<(String, Value)>, usize),
>)
    ensures
        match entries_at(text@, pos as int, depth as nat, Seq::empty()) {
            Some((entries, end)) => r matches Some((v, e)) && Value::Object(v)@ == Json::Object(
                entries,
            ) && e == end && pos < e <= text.len() && Value::Object(v).well_formed()
                && Value::Object(v)@.nests_within(depth + 1),
            None => r is None,
        },
    decreases depth, 1nat,
{
    let mut entries: Vec<(String, Value)> = Vec::new();
    let mut cur: usize = pos;
    proof {
        lemma_entries_model(entries, 0);
    }
    loop
        invariant
            pos <= cur,
            forall|k: int| 0 <= k < entries.len() ==> (#[trigger] entries[k]).1.canonical(),
            Json::Object(entries_model(entries, entries.len() as nat)).valid(),
            Json::Object(entries_model(entries, entries.len() as nat)).nests_within(depth + 1),
            entries_at(text@, pos as int, depth as nat, Seq::empty()) == entries_at(
                text@,
                cur as int,
                depth as nat,
                entries_model(entries, entries.len() as nat),
            ),
        decreases text.len() - cur,
    {
        let at = skip_blank(text, cur);
        if at >= text.len() || text[at] != '"' {
            return None;
        }
        let (key, key_end) = match read_string(text, at + 1) {
            Some(found) => found,
            None => {
                return None;
            },
        };
        let colon = skip_blank(text, key_end);
        if colon >= text.len() || text[colon] != ':' {
            return None;
        }
        let (value, end) = match read_value(text, colon + 1, depth) {
            Some(found) => found,
            None => {
                return None;
            },
        };
        let next = skip_blank(text, end);
        if next >= text.len() {
            return None;
        }
        proof {
            let before = entries_model(entries, entries.len() as nat);
            lemma_insert_valid(before, key@, value@);
            lemma_insert_nests(before, key@, value@, depth + 1);
        }
        insert_entry(&mut entries, key, value);
        if text[next] == ',' {
            cur = next + 1;
        } else if text[next] == '}' {
            proof {
                lemma_object_view(Value::Object(entries));
            }
            return Some((entries, next + 1));
        } else {
            return None;
        }
    }
}

/// Reads the value that starts at or after `pos`, with `depth` levels of
/// nesting left.
#[verifier::rlimit(30)]
pub fn read_value(text: &[char], pos: usize, depth: usize) -> (r: Option<(Value, usize)>)
    ensures
        parsed_as(r, value_at(text@, pos as int, depth as nat)),
        r matches Some((v, end)) ==> pos < end <= text.len() && v.well_formed() && v@.nests_within(
            depth as int,
        ),
    decreases depth, 0nat,
{
    let at = skip_blank(text, pos);
    if at >= text.len() {
        return None;
    }
    let c = text[at];
    if c == 'n' {
        if at_word(text, at, 'n', 'u', 'l', 'l') {
            Some((Value::Null, at + 4))
        } else {
            None
        }
    } else if c == 't' {
        if at_word(text, at, 't', 'r', 'u', 'e') {
            Some((Value::Bool(true), at + 4))
        } else {
            None
        }
    } else if c == 'f' {
        if at_false(text, at) {
            Some((Value::Bool(false), at + 5))
        } else {
            None
        }
    } else if c == '"' {
        match read_string(text, at + 1) {
            Some((s, end)) => Some((Value::Str(s), end)),
            None => None,
        }
    } else if c == '[' {
        if depth == 0 {
            return None;
        }
        let inside = skip_blank(text, at + 1);
        if inside < text.len() && text[inside] == ']' {
            let items: Vec<Value> = Vec::new();
            proof {
                lemma_array_view(Value::Array(items));
                assert(Value::Array(items)@->Array_0 =~= Seq::<Json>::empty());
                assert(Value::Array(items).well_formed());
            }
            return Some((Value::Array(items), inside + 1));
        }
        match read_items(text, inside, depth - 1) {
            Some((items, end)) => Some((Value::Array(items), end)),
            None => None,
        }
    } else if c == '{' {
        if depth == 0 {
            return None;
        }
        let inside = skip_blank(text, at + 1);
        if inside < text.len() && text[inside] == '}' {
            let entries: Vec<(String, Value)> = Vec::new();
            proof {
                lemma_object_view(Value::Object(entries));
                assert(Value::Object(entries)@->Object_0 =~= Seq::<(Seq<char>, Json)>::empty());
                assert(Value::Object(entries).well_formed());
            }
            return Some((Value::Object(entries), inside + 1));
        }
        match read_entries(text, inside, depth - 1) {
            Some((entries, end)) => Some((Value::Object(entries), end)),
            None => None,
        }
    } else {
        read_number(text, at)
    }
}

/// The value that the JSON text `text` spells.
///
/// Fails with `JsonParse` where `text` is not one JSON value with nothing
/// but white space around it, or nests deeper than `MAX_DEPTH`.
pub fn from_json(text: &str) -> (r: Result<Value, ConvertError>)
    ensures
        match document(text@) {
            Some(json) => r matches Ok(v) && v@ == json,
            None => r == Err::<Value, ConvertError>(ConvertError::JsonParse),
        },
        r matches Ok(v) ==> v.well_formed() && v@.nests_within(MAX_DEPTH as int),
{
    let chars = to_chars(text);
    match read_value(chars.as_slice(), 0, MAX_DEPTH) {
        Some((v, end)) => {
            if skip_blank(chars.as_slice(), end) >= chars.len() {
                Ok(v)
            } else {
                Err(ConvertError::JsonParse)
            }
        },
        None => Err(ConvertError::JsonParse),
    }
}

} // verus!
