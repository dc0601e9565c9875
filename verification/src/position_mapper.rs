//! The map between the printed JSON text and the MessagePack bytes: which
//! span of characters was printed from which span of bytes.

use crate::cursor::{safe_byte, UnpackError};
use crate::decoder::{
    classify, declared_len, decode_at, decode_value, format_of, key_string, key_text, read_len,
    Format,
};
use crate::format::{is_space, is_whitespace, push_string_literal, string_literal, to_chars};
use crate::json::{compact_text, write_compact};
use crate::value::MAX_DEPTH;
use vstd::prelude::*;

verus! {

/// What a mapped span of text is.
#[derive(Debug, Clone, Copy, PartialEq, Eq, Structural)]
pub enum MappingType {
    /// A key of an object.
    Key,
    /// A scalar value.
    Value,
    /// The brackets of a container. No mapping of this kind is made.
    Container,
}

/// One correspondence: the characters from `json_start` to `json_end` of the
/// text were printed from the bytes from `hex_start` to `hex_end` of the
/// buffer. Both spans are half-open.
#[derive(Debug, Clone, Copy, PartialEq, Eq, Structural)]
pub struct PositionMapping {
    pub json_start: usize,
    pub json_end: usize,
    pub hex_start: usize,
    pub hex_end: usize,
    pub mapping_type: MappingType,
}

/// Why the walk over bytes and text stopped.
#[derive(Debug, Clone, Copy, PartialEq, Eq, Structural)]
pub enum MappingError {
    /// The bytes could not be decoded.
    Decode(UnpackError),
    /// A position in the text would be beyond `usize::MAX`.
    TextOverflow,
}

/// The first position from `pos` on whose character is neither white space
/// nor one of `delimiters`; the length of the text where there is none.
pub open spec fn skip_end(text: Seq<char>, pos: int, delimiters: Seq<char>) -> int
    decreases text.len() - pos,
{
    if 0 <= pos < text.len() && (is_whitespace(text[pos]) || delimiters.contains(text[pos])) {
        skip_end(text, pos + 1, delimiters)
    } else {
        pos
    }
}

/// The first position from `pos` on whose character is no white space.
pub open spec fn whitespace_end(text: Seq<char>, pos: int) -> int {
    skip_end(text, pos, Seq::empty())
}

/// `pos` moved past the character `c`, where `c` stands at `pos`.
pub open spec fn step_over(text: Seq<char>, pos: int, c: char) -> int {
    if 0 <= pos < text.len() && text[pos] == c {
        pos + 1
    } else {
        pos
    }
}

/// Skipping never goes back, and never beyond the end of the text.
pub proof fn lemma_skip_end_bounds(text: Seq<char>, pos: int, delimiters: Seq<char>)
    ensures
        pos <= skip_end(text, pos, delimiters),
        pos <= text.len() ==> skip_end(text, pos, delimiters) <= text.len(),
        pos >= text.len() ==> skip_end(text, pos, delimiters) == pos,
    decreases text.len() - pos,
{
    if 0 <= pos < text.len() && (is_whitespace(text[pos]) || delimiters.contains(text[pos])) {
        lemma_skip_end_bounds(text, pos + 1, delimiters);
    }
}

/// Whether `c` is one of `delimiters`.
fn is_one_of(c: char, delimiters: &[char]) -> (r: bool)
    ensures
        r == delimiters@.contains(c),
{
    let mut i: usize = 0;
    while i < delimiters.len()
        invariant
            i <= delimiters.len(),
            forall|k: int| 0 <= k < i ==> delimiters@[k] != c,
        decreases delimiters.len() - i,
    {
        if delimiters[i] == c {
            return true;
        }
        i += 1;
    }
    false
}

/// Skips white space and the characters of `delimiters` from `pos` on.
pub fn skip_chars(text: &[char], pos: usize, delimiters: &[char]) -> (end: usize)
    ensures
        end == skip_end(text@, pos as int, delimiters@),
        pos <= end,
        pos <= text.len() ==> end <= text.len(),
{
    let mut p: usize = pos;
    proof {
        lemma_skip_end_bounds(text@, pos as int, delimiters@);
    }
    while p < text.len() && (is_space(text[p]) || is_one_of(text[p], delimiters))
        invariant
            pos <= p,
            skip_end(text@, pos as int, delimiters@) == skip_end(text@, p as int, delimiters@),
        decreases text.len() - p,
    {
        p += 1;
    }
    p
}

/// The first position from `pos` on at which `json_string` has no white
/// space; `pos` itself where it lies beyond the text.
pub fn skip_whitespace(json_string: &str, pos: usize) -> (end: usize)
    ensures
        end == whitespace_end(json_string@, pos as int),
{
    let text = to_chars(json_string);
    let none: Vec<char> = Vec::new();
    assert(none@ =~= Seq::<char>::empty());
    skip_chars(text.as_slice(), pos, none.as_slice())
}

/// The first position from `pos` on at which `json_string` has neither
/// white space nor a character of `delimiters`.
pub fn skip_whitespace_and_delimiters(json_string: &str, pos: usize, delimiters: &str) -> (end:
    usize)
    ensures
        end == skip_end(json_string@, pos as int, delimiters@),
{
    let text = to_chars(json_string);
    let marks = to_chars(delimiters);
    skip_chars(text.as_slice(), pos, marks.as_slice())
}

/// The mapping of the scalar printed at `json_start` from the bytes
/// `hex_start..hex_end`, for a text of `len` characters.
pub open spec fn mapping(
    json_start: int,
    len: nat,
    hex_start: int,
    hex_end: int,
    mapping_type: MappingType,
) -> PositionMapping {
    PositionMapping {
        json_start: json_start as usize,
        json_end: (json_start + len) as usize,
        hex_start: hex_start as usize,
        hex_end: hex_end as usize,
        mapping_type,
    }
}

/// The outcome of a walk: the mappings so far, and the positions after the
/// part walked over in the bytes and in the text.
pub type Walked = Result<(Seq<PositionMapping>, int, int), MappingError>;

/// One step of the walk over bytes and text in parallel, for the value that
/// starts at `hex_pos` and is printed at or after `json_pos`.
///
/// White space before the value is skipped. A scalar gets one mapping, whose
/// text is as long as the scalar's JSON text. A container gets none itself:
/// its brackets are stepped over and its children are walked in turn. A
/// binary field is passed over in the bytes and leaves the text where it is.
/// `acc` holds the mappings made before this step.
pub open spec fn walk_value(
    data: Seq<u8>,
    text: Seq<char>,
    hex_pos: int,
    json_pos: int,
    depth: nat,
    acc: Seq<PositionMapping>,
) -> Walked
    decreases depth, 0nat,
{
    if hex_pos < 0 || hex_pos >= data.len() {
        Err(MappingError::Decode(UnpackError::TruncatedData))
    } else {
        let f = format_of(data[hex_pos]);
        let at = whitespace_end(text, json_pos);
        if f is FixArray || f is LongArray {
            match declared_len(data, hex_pos) {
                Err(e) => Err(MappingError::Decode(e)),
                Ok((count, start)) => if depth == 0 {
                    Err(MappingError::Decode(UnpackError::NestingTooDeep))
                } else {
                    match walk_items(
                        data,
                        text,
                        start,
                        step_over(text, at, '['),
                        count,
                        (depth - 1) as nat,
                        acc,
                    ) {
                        Err(e) => Err(e),
                        Ok((maps, hex_end, json_end)) => Ok(
                            (maps, hex_end, step_over(text, whitespace_end(text, json_end), ']')),
                        ),
                    }
                },
            }
        } else if f is FixMap || f is LongMap {
            match declared_len(data, hex_pos) {
                Err(e) => Err(MappingError::Decode(e)),
                Ok((count, start)) => if depth == 0 {
                    Err(MappingError::Decode(UnpackError::NestingTooDeep))
                } else {
                    match walk_entries(
                        data,
                        text,
                        start,
                        step_over(text, at, '{'),
                        count,
                        (depth - 1) as nat,
                        acc,
                    ) {
                        Err(e) => Err(e),
                        Ok((maps, hex_end, json_end)) => Ok(
                            (maps, hex_end, step_over(text, whitespace_end(text, json_end), '}')),
                        ),
                    }
                },
            }
        } else {
            match decode_value(data, hex_pos, depth) {
                Err(e) => Err(MappingError::Decode(e)),
                Ok((v, hex_end)) => if f is Bin {
                    Ok((acc, hex_end, at))
                } else {
                    let len = compact_text(v).len();
                    if at + len > usize::MAX {
                        Err(MappingError::TextOverflow)
                    } else {
                        Ok(
                            (
                                acc.push(mapping(at, len, hex_pos, hex_end, MappingType::Value)),
                                hex_end,
                                at + len,
                            ),
                        )
                    }
                },
            }
        }
    }
}

/// The walk over `count` items of an array, each after white space and
/// commas.
pub open spec fn walk_items(
    data: Seq<u8>,
    text: Seq<char>,
    hex_pos: int,
    json_pos: int,
    count: nat,
    depth: nat,
    acc: Seq<PositionMapping>,
) -> Walked
    decreases depth, count + 1,
{
    if count == 0 {
        Ok((acc, hex_pos, json_pos))
    } else {
        match walk_value(data, text, hex_pos, skip_end(text, json_pos, seq![',']), depth, acc) {
            Err(e) => Err(e),
            Ok((maps, hex_next, json_next)) => walk_items(
                data,
                text,
                hex_next,
                json_next,
                (count - 1) as nat,
                depth,
                maps,
            ),
        }
    }
}

/// The step of the walk over the key of an entry, which starts at `hex_pos`
/// and is looked for at `at` in the text. The key is decoded from the bytes;
/// where the text has a quote at `at`, the key gets a mapping as long as the
/// string literal of its text. Gives the mappings and the positions after
/// the key in the bytes and in the text.
pub open spec fn key_step(
    data: Seq<u8>,
    text: Seq<char>,
    hex_pos: int,
    at: int,
    depth: nat,
    acc: Seq<PositionMapping>,
) -> Walked {
    match decode_value(data, hex_pos, depth) {
        Err(e) => Err(MappingError::Decode(e)),
        Ok((key, key_end)) => {
            let len = string_literal(key_text(key)).len();
            let quoted = 0 <= at < text.len() && text[at] == '"';
            if quoted && at + len > usize::MAX {
                Err(MappingError::TextOverflow)
            } else if quoted {
                Ok(
                    (
                        acc.push(mapping(at, len, hex_pos, key_end, MappingType::Key)),
                        key_end,
                        at + len,
                    ),
                )
            } else {
                Ok((acc, key_end, at))
            }
        },
    }
}

/// The walk over `count` entries of a map: for each, white space and commas
/// are skipped, the key takes its step, the colon is skipped and the value
/// is walked.
pub open spec fn walk_entries(
    data: Seq<u8>,
    text: Seq<char>,
    hex_pos: int,
    json_pos: int,
    count: nat,
    depth: nat,
    acc: Seq<PositionMapping>,
) -> Walked
    decreases depth, count + 1,
{
    if count == 0 {
        Ok((acc, hex_pos, json_pos))
    } else {
        match key_step(data, text, hex_pos, skip_end(text, json_pos, seq![',']), depth, acc) {
            Err(e) => Err(e),
            Ok((with_key, key_end, after_key)) => match walk_value(
                data,
                text,
                key_end,
                skip_end(text, after_key, seq![':']),
                depth,
                with_key,
            ) {
                Err(e) => Err(e),
                Ok((maps, hex_next, json_next)) => walk_entries(
                    data,
                    text,
                    hex_next,
                    json_next,
                    (count - 1) as nat,
                    depth,
                    maps,
                ),
            },
        }
    }
}

/// Whether `r` and the mappings `after` are what the walk `w` asks for,
/// given the mappings `before`. Whatever the outcome, the mappings made
/// before stay in place.
pub open spec fn walked_as(
    r: Result<(usize, usize), MappingError>,
    before: Seq<PositionMapping>,
    after: Seq<PositionMapping>,
    w: Walked,
) -> bool {
    &&& before.len() <= after.len()
    &&& after.take(before.len() as int) == before
    &&& match w {
        Ok((maps, hex_end, json_end)) => r == Ok::<(usize, usize), MappingError>(
            (hex_end as usize, json_end as usize),
        ) && after == maps && 0 <= hex_end <= usize::MAX && 0 <= json_end <= usize::MAX,
        Err(e) => r == Err::<(usize, usize), MappingError>(e),
    }
}

/// Whether the mappings of `maps` from the one at `from` on are well made:
/// each lies in the bytes at or behind `hex_pos` and in the text at or
/// behind `json_pos`, neither span is reversed, its bytes are not empty, and
/// each starts where the one before it has ended, or behind that.
pub open spec fn lined_up(
    maps: Seq<PositionMapping>,
    from: int,
    hex_pos: int,
    json_pos: int,
    data_len: int,
) -> bool {
    &&& forall|k: int|
        from <= k < maps.len() ==> hex_pos <= (#[trigger] maps[k]).hex_start < maps[k].hex_end
            <= data_len && json_pos <= maps[k].json_start <= maps[k].json_end
    &&& forall|i: int, j: int|
        from <= i < j < maps.len() ==> (#[trigger] maps[i]).hex_end <= (
        #[trigger] maps[j]).hex_start && maps[i].json_end <= maps[j].json_start
}

/// Whether the mappings of `maps` from the one at `from` on end at or before
/// `hex_end` in the bytes and `json_end` in the text.
pub open spec fn ends_by(
    maps: Seq<PositionMapping>,
    from: int,
    hex_end: int,
    json_end: int,
) -> bool {
    forall|k: int|
        from <= k < maps.len() ==> (#[trigger] maps[k]).hex_end <= hex_end && maps[k].json_end
            <= json_end
}

/// Mappings that are lined up stay so when more are added behind their end.
pub proof fn lemma_lined_up_more(
    before: Seq<PositionMapping>,
    after: Seq<PositionMapping>,
    from: int,
    hex_pos: int,
    json_pos: int,
    hex_mid: int,
    json_mid: int,
    data_len: int,
)
    requires
        0 <= from <= before.len() <= after.len(),
        after.take(before.len() as int) == before,
        lined_up(before, from, hex_pos, json_pos, data_len),
        ends_by(before, from, hex_mid, json_mid),
        hex_pos <= hex_mid,
        json_pos <= json_mid,
        lined_up(after, before.len() as int, hex_mid, json_mid, data_len),
    ensures
        lined_up(after, from, hex_pos, json_pos, data_len),
{
    assert forall|k: int| from <= k < before.len() implies #[trigger] after[k] == before[k] by {
        assert(after.take(before.len() as int)[k] == after[k]);
    }
    assert forall|k: int| from <= k < after.len() implies hex_pos <= (#[trigger] after[k]).hex_start
        < after[k].hex_end <= data_len && json_pos <= after[k].json_start <= after[k].json_end by {
        if k < before.len() {
            assert(after[k] == before[k]);
        }
    }
    assert forall|i: int, j: int| from <= i < j < after.len() implies (#[trigger] after[i]).hex_end
        <= (#[trigger] after[j]).hex_start && after[i].json_end <= after[j].json_start by {
        if j < before.len() {
            assert(after[i] == before[i]);
            assert(after[j] == before[j]);
        } else if i < before.len() {
            assert(after[i] == before[i]);
        }
    }
}

/// Mappings that end by some place also end by every later place.
pub proof fn lemma_ends_by_later(
    maps: Seq<PositionMapping>,
    from: int,
    hex_mid: int,
    json_mid: int,
    hex_end: int,
    json_end: int,
)
    requires
        ends_by(maps, from, hex_mid, json_mid),
        hex_mid <= hex_end,
        json_mid <= json_end,
    ensures
        ends_by(maps, from, hex_end, json_end),
{
}

/// Mappings that end by some place also end by every later place, and so do
/// those added behind them that end by it.
pub proof fn lemma_ends_by_more(
    before: Seq<PositionMapping>,
    after: Seq<PositionMapping>,
    from: int,
    hex_mid: int,
    json_mid: int,
    hex_end: int,
    json_end: int,
)
    requires
        0 <= from <= before.len() <= after.len(),
        after.take(before.len() as int) == before,
        ends_by(before, from, hex_mid, json_mid),
        hex_mid <= hex_end,
        json_mid <= json_end,
        ends_by(after, before.len() as int, hex_end, json_end),
    ensures
        ends_by(after, from, hex_end, json_end),
{
    assert forall|k: int| from <= k < after.len() implies (#[trigger] after[k]).hex_end <= hex_end
        && after[k].json_end <= json_end by {
        if k < before.len() {
            assert(after.take(before.len() as int)[k] == after[k]);
            assert(after[k] == before[k]);
        }
    }
}

/// `pos` moved past the character `c`, where `c` stands at `pos`.
fn step(text: &[char], pos: usize, c: char) -> (end: usize)
    ensures
        end == step_over(text@, pos as int, c),
        pos <= end,
        pos <= text.len() ==> end <= text.len(),
{
    if pos < text.len() && text[pos] == c {
        pos + 1
    } else {
        pos
    }
}

/// The delimiter between the items of a container.
fn comma() -> (v: Vec<char>)
    ensures
        v@ == seq![','],
{
    let mut v: Vec<char> = Vec::new();
    v.push(',');
    assert(v@ =~= seq![',']);
    v
}

/// The delimiter between a key and its value.
fn colon() -> (v: Vec<char>)
    ensures
        v@ == seq![':'],
{
    let mut v: Vec<char> = Vec::new();
    v.push(':');
    assert(v@ =~= seq![':']);
    v
}

/// Walks `count` items of an array in a row.
#[verifier::rlimit(30)]
fn walk_array_body(
    data: &[u8],
    text: &[char],
    mappings: &mut Vec<PositionMapping>,
    hex_pos: usize,
    json_pos: usize,
    count: usize,
    depth: usize,
) -> (r: Result<(usize, usize), MappingError>)
    requires
        hex_pos <= data.len(),
    ensures
        walked_as(
            r,
            old(mappings)@,
            final(mappings)@,
            walk_items(
                data@,
                text@,
                hex_pos as int,
                json_pos as int,
                count as nat,
                depth as nat,
                old(mappings)@,
            ),
        ),
        lined_up(
            final(mappings)@,
            old(mappings)@.len() as int,
            hex_pos as int,
            json_pos as int,
            data@.len() as int,
        ),
        r matches Ok((h, j)) ==> hex_pos <= h <= data.len() && json_pos <= j && ends_by(
            final(mappings)@,
            old(mappings)@.len() as int,
            h as int,
            j as int,
        ),
    decreases depth, 1nat,
{
    let ghost before = mappings@;
    let mut hex: usize = hex_pos;
    let mut json: usize = json_pos;
    let separators = comma();
    let mut i: usize = 0;
    while i < count
        invariant
            i <= count,
            hex_pos <= hex <= data.len(),
            json_pos <= json,
            separators@ == seq![','],
            before == old(mappings)@,
            before.len() <= mappings@.len(),
            mappings@.take(before.len() as int) == before,
            lined_up(
                mappings@,
                before.len() as int,
                hex_pos as int,
                json_pos as int,
                data@.len() as int,
            ),
            ends_by(mappings@, before.len() as int, hex as int, json as int),
            walk_items(
                data@,
                text@,
                hex_pos as int,
                json_pos as int,
                count as nat,
                depth as nat,
                before,
            ) == walk_items(
                data@,
                text@,
                hex as int,
                json as int,
                (count - i) as nat,
                depth as nat,
                mappings@,
            ),
        decreases count - i,
    {
        let ghost so_far = mappings@;
        let at = skip_chars(text, json, separators.as_slice());
        let stepped = build_mappings(data, text, mappings, hex, at, depth);
        assert(mappings@.take(before.len() as int) =~= so_far.take(before.len() as int)) by {
            assert(mappings@.take(so_far.len() as int) == so_far);
        }
        proof {
            lemma_ends_by_later(
                so_far,
                before.len() as int,
                hex as int,
                json as int,
                hex as int,
                at as int,
            );
            lemma_lined_up_more(
                so_far,
                mappings@,
                before.len() as int,
                hex_pos as int,
                json_pos as int,
                hex as int,
                at as int,
                data@.len() as int,
            );
        }
        match stepped {
            Err(e) => {
                return Err(e);
            },
            Ok((h, j)) => {
                proof {
                    lemma_ends_by_more(
                        so_far,
                        mappings@,
                        before.len() as int,
                        hex as int,
                        at as int,
                        h as int,
                        j as int,
                    );
                }
                hex = h;
                json = j;
            },
        }
        i += 1;
    }
    Ok((hex, json))
}

/// Walks the key of an entry and maps it where the text shows it in quotes.
#[verifier::rlimit(30)]
fn walk_key(
    data: &[u8],
    text: &[char],
    mappings: &mut Vec<PositionMapping>,
    hex_pos: usize,
    at: usize,
    depth: usize,
) -> (r: Result<(usize, usize), MappingError>)
    ensures
        walked_as(
            r,
            old(mappings)@,
            final(mappings)@,
            key_step(data@, text@, hex_pos as int, at as int, depth as nat, old(mappings)@),
        ),
        lined_up(
            final(mappings)@,
            old(mappings)@.len() as int,
            hex_pos as int,
            at as int,
            data@.len() as int,
        ),
        r matches Ok((h, j)) ==> hex_pos < h <= data.len() && at <= j && ends_by(
            final(mappings)@,
            old(mappings)@.len() as int,
            h as int,
            j as int,
        ),
{
    assert(mappings@.take(mappings@.len() as int) =~= mappings@);
    let (key, key_end) = match decode_at(data, hex_pos, depth) {
        Ok(found) => found,
        Err(e) => {
            return Err(MappingError::Decode(e));
        },
    };
    if at < text.len() && text[at] == '"' {
        let name = key_string(key);
        let mut literal: Vec<char> = Vec::new();
        push_string_literal(&mut literal, name.as_str());
        assert(literal@ =~= string_literal(name@));
        if literal.len() > usize::MAX - at {
            return Err(MappingError::TextOverflow);
        }
        let after_key: usize = at + literal.len();
        mappings.push(
            PositionMapping {
                json_start: at,
                json_end: after_key,
                hex_start: hex_pos,
                hex_end: key_end,
                mapping_type: MappingType::Key,
            },
        );
        assert(mappings@.take(old(mappings)@.len() as int) =~= old(mappings)@);
        Ok((key_end, after_key))
    } else {
        Ok((key_end, at))
    }
}

/// Walks `count` entries of a map in a row.
#[verifier::rlimit(30)]
fn walk_map_body(
    data: &[u8],
    text: &[char],
    mappings: &mut Vec<PositionMapping>,
    hex_pos: usize,
    json_pos: usize,
    count: usize,
    depth: usize,
) -> (r: Result<(usize, usize), MappingError>)
    requires
        hex_pos <= data.len(),
    ensures
        walked_as(
            r,
            old(mappings)@,
            final(mappings)@,
            walk_entries(
                data@,
                text@,
                hex_pos as int,
                json_pos as int,
                count as nat,
                depth as nat,
                old(mappings)@,
            ),
        ),
        lined_up(
            final(mappings)@,
            old(mappings)@.len() as int,
            hex_pos as int,
            json_pos as int,
            data@.len() as int,
        ),
        r matches Ok((h, j)) ==> hex_pos <= h <= data.len() && json_pos <= j && ends_by(
            final(mappings)@,
            old(mappings)@.len() as int,
            h as int,
            j as int,
        ),
    decreases depth, 1nat,
{
    let ghost before = mappings@;
    let mut hex: usize = hex_pos;
    let mut json: usize = json_pos;
    let separators = comma();
    let assigns = colon();
    let mut i: usize = 0;
    while i < count
        invariant
            i <= count,
            hex_pos <= hex <= data.len(),
            json_pos <= json,
            separators@ == seq![','],
            assigns@ == seq![':'],
            before == old(mappings)@,
            before.len() <= mappings@.len(),
            mappings@.take(before.len() as int) == before,
            lined_up(
                mappings@,
                before.len() as int,
                hex_pos as int,
                json_pos as int,
                data@.len() as int,
            ),
            ends_by(mappings@, before.len() as int, hex as int, json as int),
            walk_entries(
                data@,
                text@,
                hex_pos as int,
                json_pos as int,
                count as nat,
                depth as nat,
                before,
            ) == walk_entries(
                data@,
                text@,
                hex as int,
                json as int,
                (count - i) as nat,
                depth as nat,
                mappings@,
            ),
        decreases count - i,
    {
        let ghost so_far = mappings@;
        let at = skip_chars(text, json, separators.as_slice());
        let (key_end, after_key) = match walk_key(data, text, mappings, hex, at, depth) {
            Ok(ends) => ends,
            Err(e) => {
                proof {
                    lemma_ends_by_later(
                        so_far,
                        before.len() as int,
                        hex as int,
                        json as int,
                        hex as int,
                        at as int,
                    );
                    lemma_lined_up_more(
                        so_far,
                        mappings@,
                        before.len() as int,
                        hex_pos as int,
                        json_pos as int,
                        hex as int,
                        at as int,
                        data@.len() as int,
                    );
                    assert(mappings@.take(before.len() as int) =~= so_far.take(
                        before.len() as int,
                    )) by {
                        assert(mappings@.take(so_far.len() as int) == so_far);
                    }
                }
                return Err(e);
            },
        };
        let ghost with_key = mappings@;
        proof {
            lemma_ends_by_later(
                so_far,
                before.len() as int,
                hex as int,
                json as int,
                hex as int,
                at as int,
            );
            lemma_lined_up_more(
                so_far,
                with_key,
                before.len() as int,
                hex_pos as int,
                json_pos as int,
                hex as int,
                at as int,
                data@.len() as int,
            );
            lemma_ends_by_more(
                so_far,
                with_key,
                before.len() as int,
                hex as int,
                at as int,
                key_end as int,
                after_key as int,
            );
        }
        let value_at = skip_chars(text, after_key, assigns.as_slice());
        let stepped = build_mappings(data, text, mappings, key_end, value_at, depth);
        assert(mappings@.take(before.len() as int) =~= before) by {
            assert(mappings@.take(with_key.len() as int) == with_key);
            assert(with_key.take(so_far.len() as int) == so_far);
            assert(so_far.take(before.len() as int) == before);
        }
        proof {
            lemma_ends_by_later(
                with_key,
                before.len() as int,
                key_end as int,
                after_key as int,
                key_end as int,
                value_at as int,
            );
            lemma_lined_up_more(
                with_key,
                mappings@,
                before.len() as int,
                hex_pos as int,
                json_pos as int,
                key_end as int,
                value_at as int,
                data@.len() as int,
            );
        }
        match stepped {
            Err(e) => {
                return Err(e);
            },
            Ok((h, j)) => {
                proof {
                    lemma_ends_by_more(
                        with_key,
                        mappings@,
                        before.len() as int,
                        key_end as int,
                        value_at as int,
                        h as int,
                        j as int,
                    );
                }
                hex = h;
                json = j;
            },
        }
        i += 1;
    }
    Ok((hex, json))
}

/// Walks the value at `hex_pos` and the text from `json_pos` in parallel and
/// appends the mappings found to `mappings`. Returns the positions after the
/// value in the bytes and in the text.
#[verifier::rlimit(30)]
pub fn build_mappings(
    data: &[u8],
    text: &[char],
    mappings: &mut Vec<PositionMapping>,
    hex_pos: usize,
    json_pos: usize,
    depth: usize,
) -> (r: Result<(usize, usize), MappingError>)
    ensures
        walked_as(
            r,
            old(mappings)@,
            final(mappings)@,
            walk_value(
                data@,
                text@,
                hex_pos as int,
                json_pos as int,
                depth as nat,
                old(mappings)@,
            ),
        ),
        lined_up(
            final(mappings)@,
            old(mappings)@.len() as int,
            hex_pos as int,
            json_pos as int,
            data@.len() as int,
        ),
        r matches Ok((h, j)) ==> hex_pos < h <= data.len() && json_pos <= j && ends_by(
            final(mappings)@,
            old(mappings)@.len() as int,
            h as int,
            j as int,
        ),
    decreases depth, 0nat,
{
    assert(mappings@.take(mappings@.len() as int) =~= mappings@);
    let leading = match safe_byte(data, hex_pos) {
        Ok(b) => b,
        Err(e) => {
            return Err(MappingError::Decode(e));
        },
    };
    let none: Vec<char> = Vec::new();
    assert(none@ =~= Seq::<char>::empty());
    let at = skip_chars(text, json_pos, none.as_slice());
    let f = classify(leading);
    match f {
        Format::FixArray | Format::LongArray { .. } => {
            let (count, start) = match read_len(data, hex_pos) {
                Ok(found) => found,
                Err(e) => {
                    return Err(MappingError::Decode(e));
                },
            };
            if depth == 0 {
                return Err(MappingError::Decode(UnpackError::NestingTooDeep));
            }
            let inside = step(text, at, '[');
            let (hex_end, json_end) = walk_array_body(
                data,
                text,
                mappings,
                start,
                inside,
                count,
                depth - 1,
            )?;
            let close = skip_chars(text, json_end, none.as_slice());
            Ok((hex_end, step(text, close, ']')))
        },
        Format::FixMap | Format::LongMap { .. } => {
            let (count, start) = match read_len(data, hex_pos) {
                Ok(found) => found,
                Err(e) => {
                    return Err(MappingError::Decode(e));
                },
            };
            if depth == 0 {
                return Err(MappingError::Decode(UnpackError::NestingTooDeep));
            }
            let inside = step(text, at, '{');
            let (hex_end, json_end) = walk_map_body(
                data,
                text,
                mappings,
                start,
                inside,
                count,
                depth - 1,
            )?;
            let close = skip_chars(text, json_end, none.as_slice());
            Ok((hex_end, step(text, close, '}')))
        },
        _ => {
            let (v, hex_end) = match decode_at(data, hex_pos, depth) {
                Ok(found) => found,
                Err(e) => {
                    return Err(MappingError::Decode(e));
                },
            };
            if let Format::Bin { .. } = f {
                return Ok((hex_end, at));
            }
            let mut printed: Vec<char> = Vec::new();
            write_compact(&v, &mut printed);
            assert(printed@ =~= compact_text(v@));
            if printed.len() > usize::MAX - at {
                return Err(MappingError::TextOverflow);
            }
            let json_end: usize = at + printed.len();
            mappings.push(
                PositionMapping {
                    json_start: at,
                    json_end,
                    hex_start: hex_pos,
                    hex_end,
                    mapping_type: MappingType::Value,
                },
            );
            assert(mappings@.take(old(mappings)@.len() as int) =~= old(mappings)@);
            Ok((hex_end, json_end))
        },
    }
}

/// The mappings between `msgpack_data` and `json_string`, in the order in
/// which the text shows them, where `json_string` is the pretty-printed form
/// of the value in `msgpack_data`. Empty where the bytes cannot be decoded.
///
/// Every mapping lies within the bytes, and each starts where the one
/// before it has ended, or behind that.
pub fn create_position_mappings(msgpack_data: &[u8], json_string: &str) -> (mappings: Vec<
    PositionMapping,
>)
    ensures
        mappings@ == match walk_value(
            msgpack_data@,
            json_string@,
            0,
            0,
            MAX_DEPTH as nat,
            Seq::empty(),
        ) {
            Ok((maps, hex_end, json_end)) => maps,
            Err(e) => Seq::empty(),
        },
        lined_up(mappings@, 0, 0, 0, msgpack_data@.len() as int),
{
    let text = to_chars(json_string);
    let mut mappings: Vec<PositionMapping> = Vec::new();
    match build_mappings(msgpack_data, text.as_slice(), &mut mappings, 0, 0, MAX_DEPTH) {
        Ok(ends) => mappings,
        Err(e) => Vec::new(),
    }
}

/// Whether the text span of `m` and the selection `sel_start..sel_end` have a
/// character in common.
pub open spec fn overlaps(m: PositionMapping, sel_start: int, sel_end: int) -> bool {
    m.json_start < sel_end && m.json_end > sel_start
}

/// Whether the selection overlaps none of `maps`.
pub open spec fn untouched(maps: Seq<PositionMapping>, sel_start: int, sel_end: int) -> bool {
    forall|i: int| 0 <= i < maps.len() ==> !overlaps(#[trigger] maps[i], sel_start, sel_end)
}

/// Whether `hex_start..hex_end` is the smallest byte span that covers the
/// bytes of every mapping of `maps` that the selection overlaps: it starts
/// where the first of them starts and ends where the last of them ends.
pub open spec fn covers(
    maps: Seq<PositionMapping>,
    sel_start: int,
    sel_end: int,
    hex_start: int,
    hex_end: int,
) -> bool {
    &&& exists|i: int|
        0 <= i < maps.len() && overlaps(#[trigger] maps[i], sel_start, sel_end)
            && maps[i].hex_start == hex_start
    &&& exists|i: int|
        0 <= i < maps.len() && overlaps(#[trigger] maps[i], sel_start, sel_end) && maps[i].hex_end
            == hex_end
    &&& forall|i: int|
        0 <= i < maps.len() && overlaps(#[trigger] maps[i], sel_start, sel_end) ==> hex_start
            <= maps[i].hex_start && maps[i].hex_end <= hex_end
}

/// The smallest byte span that covers the bytes of every mapping whose text
/// overlaps the selection `json_sel_start..json_sel_end`, or `None` where no
/// mapping overlaps it.
pub fn find_hex_range_for_json_selection(
    mappings: &[PositionMapping],
    json_sel_start: usize,
    json_sel_end: usize,
) -> (r: Option<(usize, usize)>)
    ensures
        match r {
            None => untouched(mappings@, json_sel_start as int, json_sel_end as int),
            Some((hex_start, hex_end)) => covers(
                mappings@,
                json_sel_start as int,
                json_sel_end as int,
                hex_start as int,
                hex_end as int,
            ),
        },
{
    let mut found: Option<(usize, usize)> = None;
    let ghost mut low_at: int = 0;
    let ghost mut high_at: int = 0;
    let mut i: usize = 0;
    while i < mappings.len()
        invariant
            i <= mappings.len(),
            match found {
                None => forall|k: int|
                    0 <= k < i ==> !overlaps(
                        #[trigger] mappings[k],
                        json_sel_start as int,
                        json_sel_end as int,
                    ),
                Some((hex_start, hex_end)) => {
                    &&& 0 <= low_at < i && overlaps(
                        mappings[low_at],
                        json_sel_start as int,
                        json_sel_end as int,
                    ) && mappings[low_at].hex_start == hex_start
                    &&& 0 <= high_at < i && overlaps(
                        mappings[high_at],
                        json_sel_start as int,
                        json_sel_end as int,
                    ) && mappings[high_at].hex_end == hex_end
                    &&& forall|k: int|
                        0 <= k < i && overlaps(
                            #[trigger] mappings[k],
                            json_sel_start as int,
                            json_sel_end as int,
                        ) ==> hex_start <= mappings[k].hex_start && mappings[k].hex_end <= hex_end
                },
            },
        decreases mappings.len() - i,
    {
        let m = mappings[i];
        if m.json_start < json_sel_end && m.json_end > json_sel_start {
            match found {
                None => {
                    found = Some((m.hex_start, m.hex_end));
                    proof {
                        low_at = i as int;
                        high_at = i as int;
                    }
                },
                Some((hex_start, hex_end)) => {
                    let mut low = hex_start;
                    let mut high = hex_end;
                    if m.hex_start < low {
                        low = m.hex_start;
                        proof {
                            low_at = i as int;
                        }
                    }
                    if m.hex_end > high {
                        high = m.hex_end;
                        proof {
                            high_at = i as int;
                        }
                    }
                    found = Some((low, high));
                },
            }
        }
        i += 1;
    }
    found
}

/// Character span of a byte range in a hex dump that shows two digits per
/// byte and one space between neighbouring bytes.
pub open spec fn hex_char_range(hex_start: int, hex_end: int) -> (int, int) {
    (hex_start * 3, hex_end * 3 - 1)
}

/// The characters that the bytes `hex_start..hex_end` take in a hex dump
/// with two digits per byte and one space between bytes. The span ends
/// before the space that follows the last byte, so the range must hold at
/// least the byte 0.
pub fn byte_range_to_hex_char_range(hex_start: usize, hex_end: usize) -> (r: (usize, usize))
    requires
        hex_end >= 1,
        hex_start * 3 <= usize::MAX,
        hex_end * 3 <= usize::MAX,
    ensures
        r.0 == hex_char_range(hex_start as int, hex_end as int).0,
        r.1 == hex_char_range(hex_start as int, hex_end as int).1,
{
    let char_start: usize = hex_start * 3;
    let char_end: usize = hex_end * 3 - 1;
    (char_start, char_end)
}

} // verus!
