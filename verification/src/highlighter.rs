//! Markup for showing a document in a page: escaping, and the span that
//! marks the selected bytes of a hex dump.

use crate::format::{push_str, to_chars, to_text};
use vstd::prelude::*;

verus! {

/// How `c` stands in HTML text: the five characters that HTML gives a meaning
/// to become entities.
pub open spec fn html_char(c: char) -> Seq<char> {
    if c == '&' {
        "&amp;"@
    } else if c == '<' {
        "&lt;"@
    } else if c == '>' {
        "&gt;"@
    } else if c == '"' {
        "&quot;"@
    } else if c == '\'' {
        "&#039;"@
    } else {
        seq![c]
    }
}

/// The first `n` characters of `s`, each as it stands in HTML text.
pub open spec fn html_text(s: Seq<char>, n: nat) -> Seq<char>
    decreases n,
{
    if n == 0 || n > s.len() {
        Seq::empty()
    } else {
        html_text(s, (n - 1) as nat) + html_char(s[n - 1])
    }
}

/// `s` as it stands in HTML text.
pub open spec fn escaped_html(s: Seq<char>) -> Seq<char> {
    html_text(s, s.len())
}

/// The tag that opens the marked part of a hex dump.
pub open spec fn mark_open() -> Seq<char> {
    "<span class=\"hex-highlight\">"@
}

/// The tag that closes the marked part of a hex dump.
pub open spec fn mark_close() -> Seq<char> {
    "</span>"@
}

/// The markup for the hex dump `code` with the characters `range` marked.
/// A range that does not lie in `code` marks nothing.
pub open spec fn marked_hex(code: Seq<char>, range: Option<(usize, usize)>) -> Seq<char> {
    match range {
        Some((start, end)) => if code.len() > 0 && start <= end <= code.len() {
            escaped_html(code.subrange(0, start as int)) + mark_open() + escaped_html(
                code.subrange(start as int, end as int),
            ) + mark_close() + escaped_html(code.subrange(end as int, code.len() as int))
        } else {
            escaped_html(code)
        },
        None => escaped_html(code),
    }
}

/// Appends the characters `from..to` of `text` as they stand in HTML text.
fn push_html(out: &mut Vec<char>, text: &[char], from: usize, to: usize)
    requires
        from <= to <= text.len(),
    ensures
        final(out)@ == old(out)@ + escaped_html(text@.subrange(from as int, to as int)),
{
    let ghost part = text@.subrange(from as int, to as int);
    let mut i: usize = from;
    while i < to
        invariant
            from <= i <= to <= text.len(),
            part == text@.subrange(from as int, to as int),
            out@ == old(out)@ + html_text(part, (i - from) as nat),
        decreases to - i,
    {
        let c = text[i];
        assert(part[i - from] == c);
        if c == '&' {
            push_str(out, "&amp;");
        } else if c == '<' {
            push_str(out, "&lt;");
        } else if c == '>' {
            push_str(out, "&gt;");
        } else if c == '"' {
            push_str(out, "&quot;");
        } else if c == '\'' {
            push_str(out, "&#039;");
        } else {
            out.push(c);
        }
        i += 1;
        assert(out@ =~= old(out)@ + html_text(part, (i - from) as nat));
    }
}

/// `s` with the characters `&`, `<`, `>`, `"` and `'` turned into entities.
pub fn escape_html(s: &str) -> (r: String)
    ensures
        r@ == escaped_html(s@),
{
    let text = to_chars(s);
    let mut out: Vec<char> = Vec::new();
    assert(text@.subrange(0, text@.len() as int) =~= text@);
    push_html(&mut out, text.as_slice(), 0, text.len());
    assert(out@ =~= escaped_html(s@));
    to_text(out.as_slice())
}

/// The markup for the JSON text `code`: what the page's highlighter made of
/// it, where it made anything, and else the escaped text. Empty for empty
/// text.
pub fn highlight_json(code: &str, highlighted: Option<String>) -> (r: String)
    ensures
        r@ == if code@.len() == 0 {
            Seq::<char>::empty()
        } else {
            match highlighted {
                Some(markup) => markup@,
                None => escaped_html(code@),
            }
        },
{
    let text = to_chars(code);
    if text.len() == 0 {
        return String::new();
    }
    match highlighted {
        Some(markup) => markup,
        None => escape_html(code),
    }
}

/// The markup for the hex dump `code`, with the characters from
/// `highlight_range.0` up to `highlight_range.1` inside a span of the class
/// `hex-highlight`. A range that is reversed or reaches beyond the dump marks
/// nothing.
pub fn highlight_hex(code: &str, highlight_range: Option<(usize, usize)>) -> (r: String)
    ensures
        r@ == marked_hex(code@, highlight_range),
{
    let text = to_chars(code);
    let mut out: Vec<char> = Vec::new();
    assert(text@.subrange(0, text@.len() as int) =~= text@);
    match highlight_range {
        Some((char_start, char_end)) => {
            if text.len() == 0 || char_start > char_end || char_end > text.len() {
                push_html(&mut out, text.as_slice(), 0, text.len());
            } else {
                push_html(&mut out, text.as_slice(), 0, char_start);
                push_str(&mut out, "<span class=\"hex-highlight\">");
                push_html(&mut out, text.as_slice(), char_start, char_end);
                push_str(&mut out, "</span>");
                push_html(&mut out, text.as_slice(), char_end, text.len());
            }
        },
        None => {
            push_html(&mut out, text.as_slice(), 0, text.len());
        },
    }
    assert(out@ =~= marked_hex(code@, highlight_range));
    to_text(out.as_slice())
}

} // verus!
