//! Markup made without the page's highlighter: JSON text with its strings,
//! numbers and keywords in spans, and a hex dump with a marked range.

use crate::format::{push_str, to_chars, to_text};
use vstd::prelude::*;

verus! {

/// Whether `c` has one of the Unicode general categories for numbers, as
/// `char::is_numeric` tells.
pub uninterp spec fn unicode_numeric(c: char) -> bool;

/// Whether `c` has the Unicode property Alphabetic, as `char::is_alphabetic`
/// tells.
pub uninterp spec fn unicode_alphabetic(c: char) -> bool;

/// `char::is_numeric` depends on the character alone.
pub assume_specification[ char::is_numeric ](c: char) -> (r: bool)
    ensures
        r == unicode_numeric(c),
;

/// `char::is_alphabetic` depends on the character alone.
pub assume_specification[ char::is_alphabetic ](c: char) -> (r: bool)
    ensures
        r == unicode_alphabetic(c),
;

/// How `c` stands in the markup: `&`, `<` and `>` become entities.
pub open spec fn entity(c: char) -> Seq<char> {
    if c == '&' {
        "&amp;"@
    } else if c == '<' {
        "&lt;"@
    } else if c == '>' {
        "&gt;"@
    } else {
        seq![c]
    }
}

/// The first `n` characters of `s`, each as it stands in the markup.
pub open spec fn entities(s: Seq<char>, n: nat) -> Seq<char>
    decreases n,
{
    if n == 0 || n > s.len() {
        Seq::empty()
    } else {
        entities(s, (n - 1) as nat) + entity(s[n - 1])
    }
}

/// The characters of `text`, each as it stands in the markup.
fn escape_chars(text: &[char]) -> (out: Vec<char>)
    ensures
        out@ == entities(text@, text@.len()),
{
    let mut out: Vec<char> = Vec::new();
    let mut i: usize = 0;
    while i < text.len()
        invariant
            i <= text.len(),
            out@ == entities(text@, i as nat),
        decreases text.len() - i,
    {
        let c = text[i];
        if c == '&' {
            push_str(&mut out, "&amp;");
        } else if c == '<' {
            push_str(&mut out, "&lt;");
        } else if c == '>' {
            push_str(&mut out, "&gt;");
        } else {
            out.push(c);
        }
        i += 1;
        assert(out@ =~= entities(text@, i as nat));
    }
    out
}

/// `text` with `&`, `<` and `>` turned into entities.
pub fn escape_html(text: &str) -> (r: String)
    ensures
        r@ == entities(text@, text@.len()),
{
    let chars = to_chars(text);
    let out = escape_chars(chars.as_slice());
    to_text(out.as_slice())
}

/// Whether `c` can stand in a number: a numeric character, a dot, an `e`
/// or a sign.
pub open spec fn in_number(c: char) -> bool {
    unicode_numeric(c) || c == '.' || c == 'e' || c == 'E' || c == '-' || c == '+'
}

/// The first position from `pos` on whose character cannot stand in a
/// number.
pub open spec fn number_run_end(text: Seq<char>, pos: int) -> int
    decreases text.len() - pos,
{
    if 0 <= pos < text.len() && in_number(text[pos]) {
        number_run_end(text, pos + 1)
    } else {
        pos
    }
}

/// The first position from `pos` on whose character is not alphabetic.
pub open spec fn word_end(text: Seq<char>, pos: int) -> int
    decreases text.len() - pos,
{
    if 0 <= pos < text.len() && unicode_alphabetic(text[pos]) {
        word_end(text, pos + 1)
    } else {
        pos
    }
}

/// A word in the markup: `true`, `false` and `null` in a span of their
/// own, any other word as it is.
pub open spec fn word_markup(word: Seq<char>) -> Seq<char> {
    if word == "true"@ || word == "false"@ {
        "<span class=\"token boolean\">"@ + word + "</span>"@
    } else if word == "null"@ {
        "<span class=\"token null\">"@ + word + "</span>"@
    } else {
        word
    }
}

/// The markup for `text` from `pos` on. `in_string` tells whether `pos`
/// lies inside a string, `escape_next` whether a backslash stands right
/// before it.
///
/// A string, quotes included, goes into a span of the class `string`. A
/// run of characters that can stand in a number, where it starts with a
/// numeric character or a minus before one, goes into a span of the class
/// `number`. A run of letters is a word.
pub open spec fn markup_from(text: Seq<char>, pos: int, in_string: bool, escape_next: bool) -> Seq<
    char,
>
    decreases text.len() - pos,
{
    if pos < 0 || pos >= text.len() {
        Seq::empty()
    } else {
        let c = text[pos];
        if escape_next {
            seq![c] + markup_from(text, pos + 1, in_string, false)
        } else if c == '\\' && in_string {
            seq![c] + markup_from(text, pos + 1, in_string, true)
        } else if c == '"' {
            if in_string {
                "\"</span>"@ + markup_from(text, pos + 1, false, false)
            } else {
                "<span class=\"token string\">\""@ + markup_from(text, pos + 1, true, false)
            }
        } else if in_string {
            seq![c] + markup_from(text, pos + 1, true, false)
        } else if unicode_numeric(c) || (c == '-' && pos + 1 < text.len() && unicode_numeric(
            text[pos + 1],
        )) {
            let end = number_run_end(text, pos);
            if end <= pos || end > text.len() {
                Seq::empty()
            } else {
                "<span class=\"token number\">"@ + text.subrange(pos, end) + "</span>"@
                    + markup_from(text, end, false, false)
            }
        } else if unicode_alphabetic(c) {
            let end = word_end(text, pos);
            if end <= pos || end > text.len() {
                Seq::empty()
            } else {
                word_markup(text.subrange(pos, end)) + markup_from(text, end, false, false)
            }
        } else {
            seq![c] + markup_from(text, pos + 1, false, false)
        }
    }
}

/// The markup for the JSON text `text`: its entities first, then its
/// tokens.
pub open spec fn json_markup(text: Seq<char>) -> Seq<char> {
    markup_from(entities(text, text.len()), 0, false, false)
}

/// Appends the characters `from..to` of `text` as they are.
fn push_chars(out: &mut Vec<char>, text: &[char], from: usize, to: usize)
    requires
        from <= to <= text.len(),
    ensures
        final(out)@ == old(out)@ + text@.subrange(from as int, to as int),
{
    let mut i: usize = from;
    while i < to
        invariant
            from <= i <= to <= text.len(),
            out@ == old(out)@ + text@.subrange(from as int, i as int),
        decreases to - i,
    {
        out.push(text[i]);
        i += 1;
        assert(out@ =~= old(out)@ + text@.subrange(from as int, i as int));
    }
    assert(text@.subrange(from as int, from as int) =~= Seq::<char>::empty());
}

/// Whether the characters `from..to` of `text` spell `word`.
fn is_word(text: &[char], from: usize, to: usize, word: &str) -> (r: bool)
    requires
        from <= to <= text.len(),
    ensures
        r == (text@.subrange(from as int, to as int) == word@),
{
    let letters = to_chars(word);
    let ghost part = text@.subrange(from as int, to as int);
    if letters.len() != to - from {
        return false;
    }
    let mut i: usize = 0;
    while i < letters.len()
        invariant
            i <= letters.len(),
            from <= to <= text.len(),
            letters@ == word@,
            letters@.len() == to - from,
            part == text@.subrange(from as int, to as int),
            forall|k: int| 0 <= k < i ==> part[k] == letters@[k],
        decreases letters.len() - i,
    {
        if text[from + i] != letters[i] {
            assert(part[i as int] != letters@[i as int]);
            return false;
        }
        assert(part[i as int] == text@[from + i]);
        i += 1;
    }
    assert(part =~= letters@);
    true
}

/// The markup for the JSON text `text`, made without the page's
/// highlighter. Empty for empty text.
#[verifier::rlimit(30)]
pub fn highlight_json(text: &str) -> (r: String)
    ensures
        r@ == json_markup(text@),
{
    let raw = to_chars(text);
    let chars = escape_chars(raw.as_slice());
    let mut out: Vec<char> = Vec::new();
    let mut i: usize = 0;
    let mut in_string = false;
    let mut escape_next = false;
    while i < chars.len()
        invariant
            i <= chars.len(),
            markup_from(chars@, 0, false, false) == out@ + markup_from(
                chars@,
                i as int,
                in_string,
                escape_next,
            ),
        decreases chars.len() - i,
    {
        let ghost before = out@;
        let ghost rest = markup_from(chars@, i as int, in_string, escape_next);
        let c = chars[i];
        if escape_next {
            out.push(c);
            escape_next = false;
            i += 1;
        } else if c == '\\' && in_string {
            out.push(c);
            escape_next = true;
            i += 1;
        } else if c == '"' {
            if in_string {
                push_str(&mut out, "\"</span>");
            } else {
                push_str(&mut out, "<span class=\"token string\">\"");
            }
            in_string = !in_string;
            i += 1;
        } else if in_string {
            out.push(c);
            i += 1;
        } else if c.is_numeric() || (c == '-' && i + 1 < chars.len() && chars[i + 1].is_numeric()) {
            let start = i;
            push_str(&mut out, "<span class=\"token number\">");
            assert(in_number(c));
            while i < chars.len() && (chars[i].is_numeric() || chars[i] == '.' || chars[i] == 'e'
                || chars[i] == 'E' || chars[i] == '-' || chars[i] == '+')
                invariant
                    start <= i <= chars.len(),
                    number_run_end(chars@, start as int) == number_run_end(chars@, i as int),
                    start < chars.len() && in_number(chars@[start as int]),
                    i == start || start < i,
                decreases chars.len() - i,
            {
                i += 1;
            }
            push_chars(&mut out, chars.as_slice(), start, i);
            push_str(&mut out, "</span>");
        } else if c.is_alphabetic() {
            let start = i;
            while i < chars.len() && chars[i].is_alphabetic()
                invariant
                    start <= i <= chars.len(),
                    word_end(chars@, start as int) == word_end(chars@, i as int),
                    start < chars.len() && unicode_alphabetic(chars@[start as int]),
                decreases chars.len() - i,
            {
                i += 1;
            }
            let plain = !is_word(chars.as_slice(), start, i, "true") && !is_word(
                chars.as_slice(),
                start,
                i,
                "false",
            );
            if !plain {
                push_str(&mut out, "<span class=\"token boolean\">");
                push_chars(&mut out, chars.as_slice(), start, i);
                push_str(&mut out, "</span>");
            } else if is_word(chars.as_slice(), start, i, "null") {
                push_str(&mut out, "<span class=\"token null\">");
                push_chars(&mut out, chars.as_slice(), start, i);
                push_str(&mut out, "</span>");
            } else {
                push_chars(&mut out, chars.as_slice(), start, i);
            }
        } else {
            out.push(c);
            i += 1;
        }
        assert(before + rest =~= out@ + markup_from(chars@, i as int, in_string, escape_next));
    }
    assert(out@ =~= json_markup(text@));
    to_text(out.as_slice())
}

/// The markup for the hex dump `text` with the characters `range` of its
/// escaped form inside a span of the class `hex-highlight`. An empty range,
/// or one that does not lie in the escaped form, marks nothing.
pub open spec fn hex_markup(text: Seq<char>, range: Option<(usize, usize)>) -> Seq<char> {
    let shown = entities(text, text.len());
    match range {
        Some((start, end)) => if start < end <= shown.len() {
            shown.subrange(0, start as int) + "<span class=\"hex-highlight\">"@ + shown.subrange(
                start as int,
                end as int,
            ) + "</span>"@ + shown.subrange(end as int, shown.len() as int)
        } else {
            shown
        },
        None => shown,
    }
}

/// The markup for the hex dump `text` with the characters `range` of its
/// escaped form marked.
pub fn create_highlighted_hex(text: &str, range: Option<(usize, usize)>) -> (r: String)
    ensures
        r@ == hex_markup(text@, range),
{
    let raw = to_chars(text);
    let shown = escape_chars(raw.as_slice());
    match range {
        Some((start, end)) => {
            if start < end && end <= shown.len() {
                let mut out: Vec<char> = Vec::new();
                push_chars(&mut out, shown.as_slice(), 0, start);
                push_str(&mut out, "<span class=\"hex-highlight\">");
                push_chars(&mut out, shown.as_slice(), start, end);
                push_str(&mut out, "</span>");
                push_chars(&mut out, shown.as_slice(), end, shown.len());
                assert(out@ =~= hex_markup(text@, range));
                return to_text(out.as_slice());
            }
        },
        None => {},
    }
    to_text(shown.as_slice())
}

} // verus!
