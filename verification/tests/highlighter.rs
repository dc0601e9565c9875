use msgpack_converter::highlighter::{escape_html, highlight_hex, highlight_json};
use msgpack_converter::plain_markup;

#[test]
fn test_escape_html_basic() {
    assert_eq!(escape_html("hello"), "hello");
    assert_eq!(escape_html(""), "");
}

#[test]
fn test_escape_html_special_chars() {
    assert_eq!(escape_html("<script>"), "&lt;script&gt;");
    assert_eq!(escape_html("a & b"), "a &amp; b");
    assert_eq!(escape_html(r#""quoted""#), "&quot;quoted&quot;");
    assert_eq!(escape_html("it's"), "it&#039;s");
}

#[test]
fn test_escape_html_xss_prevention() {
    let malicious = r#"<script>alert('xss')</script>"#;
    let escaped = escape_html(malicious);
    assert!(!escaped.contains('<'));
    assert!(!escaped.contains('>'));
    assert!(escaped.contains("&lt;"));
    assert!(escaped.contains("&gt;"));
}

#[test]
fn test_highlight_hex_empty() {
    assert_eq!(highlight_hex("", None), "");
    assert_eq!(highlight_hex("", Some((0, 0))), "");
}

#[test]
fn test_highlight_hex_no_range() {
    assert_eq!(highlight_hex("81 A5", None), "81 A5");
}

#[test]
fn test_highlight_hex_with_range() {
    let result = highlight_hex("81 A5 68", Some((3, 5)));
    assert!(result.contains(r#"<span class="hex-highlight">A5</span>"#));
}

#[test]
fn test_highlight_hex_invalid_range() {
    // char_start > char_end
    assert_eq!(highlight_hex("81 A5", Some((5, 3))), "81 A5");
    // char_end > code.len()
    assert_eq!(highlight_hex("81 A5", Some((0, 100))), "81 A5");
}

#[test]
fn test_highlight_hex_escapes_content() {
    let result = highlight_hex("<script>", Some((0, 4)));
    assert!(result.contains("&lt;scr"));
}

#[test]
fn test_highlight_json_empty() {
    assert_eq!(highlight_json("", None), "");
    assert_eq!(highlight_json("", Some(String::from("<b></b>"))), "");
}

#[test]
fn test_highlight_json_fallback() {
    // Without a highlighter, falls back to escaped HTML
    let result = highlight_json(r#"{"key": "value"}"#, None);
    assert!(!result.is_empty());
    assert_eq!(result, "{&quot;key&quot;: &quot;value&quot;}");
    assert_eq!(highlight_json("1", Some(String::from("<i>1</i>"))), "<i>1</i>");
}

#[test]
fn highlight_hex_marks_exactly_the_range() {
    assert_eq!(
        highlight_hex("81 A5 68", Some((3, 5))),
        "81 <span class=\"hex-highlight\">A5</span> 68"
    );
    assert_eq!(
        highlight_hex("81 A5", Some((0, 5))),
        "<span class=\"hex-highlight\">81 A5</span>"
    );
    assert_eq!(
        highlight_hex("81", Some((1, 1))),
        "8<span class=\"hex-highlight\"></span>1"
    );
    assert_eq!(
        highlight_hex("a<b&c", Some((1, 4))),
        "a<span class=\"hex-highlight\">&lt;b&amp;</span>c"
    );
}

#[test]
fn escape_html_does_not_escape_twice() {
    assert_eq!(escape_html("&lt;"), "&amp;lt;");
    assert_eq!(escape_html("<&>\"'"), "&lt;&amp;&gt;&quot;&#039;");
    assert_eq!(escape_html("\u{e9}\u{1f600}"), "\u{e9}\u{1f600}");
}

#[test]
fn plain_markup_puts_tokens_in_spans() {
    assert_eq!(plain_markup::highlight_json(""), "");
    assert_eq!(
        plain_markup::highlight_json("{\"a\": 1}"),
        "{<span class=\"token string\">\"a\"</span>: <span class=\"token number\">1</span>}"
    );
    assert_eq!(
        plain_markup::highlight_json("[true, false, null, nul]"),
        "[<span class=\"token boolean\">true</span>, <span class=\"token boolean\">false</span>, \
         <span class=\"token null\">null</span>, nul]"
    );
    assert_eq!(
        plain_markup::highlight_json("-5.5e+3"),
        "<span class=\"token number\">-5.5e+3</span>"
    );
    assert_eq!(plain_markup::highlight_json("-x"), "-x");
    assert_eq!(
        plain_markup::highlight_json("\"a\\\"b\" 7"),
        "<span class=\"token string\">\"a\\\"b\"</span> <span class=\"token number\">7</span>"
    );
    // what stands in a string is no token
    assert_eq!(
        plain_markup::highlight_json("\"true 1\""),
        "<span class=\"token string\">\"true 1\"</span>"
    );
    // entities come first
    assert_eq!(plain_markup::highlight_json("a<b"), "a&lt;b");
    // numeric and alphabetic are what Unicode says
    assert_eq!(
        plain_markup::highlight_json("\u{663} \u{e9}t\u{e9}"),
        "<span class=\"token number\">\u{663}</span> \u{e9}t\u{e9}"
    );
}

#[test]
fn plain_markup_marks_a_range_of_the_escaped_dump() {
    assert_eq!(plain_markup::create_highlighted_hex("", Some((0, 1))), "");
    assert_eq!(plain_markup::create_highlighted_hex("81 A5", None), "81 A5");
    assert_eq!(
        plain_markup::create_highlighted_hex("81 A5 68", Some((3, 5))),
        "81 <span class=\"hex-highlight\">A5</span> 68"
    );
    assert_eq!(plain_markup::create_highlighted_hex("81 A5", Some((3, 3))), "81 A5");
    assert_eq!(plain_markup::create_highlighted_hex("81 A5", Some((5, 3))), "81 A5");
    assert_eq!(plain_markup::create_highlighted_hex("81 A5", Some((0, 6))), "81 A5");
    assert_eq!(
        plain_markup::create_highlighted_hex("<A", Some((0, 4))),
        "<span class=\"hex-highlight\">&lt;</span>A"
    );
    assert_eq!(plain_markup::escape_html("<a href=\"x\">&'"), "&lt;a href=\"x\"&gt;&amp;'");
}
