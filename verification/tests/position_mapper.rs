use msgpack_converter::cursor::{safe_array, safe_byte, UnpackError};
use msgpack_converter::decoder::parse_msgpack_value;
use msgpack_converter::encoder::encode;
use msgpack_converter::json::to_json;
use msgpack_converter::parser::from_json;
use msgpack_converter::position_mapper::{
    byte_range_to_hex_char_range, create_position_mappings, find_hex_range_for_json_selection,
    skip_whitespace, skip_whitespace_and_delimiters, MappingType,
};
use msgpack_converter::value::Value;

#[test]
fn test_create_position_mappings_simple_object() {
    // {"hello": 123} in msgpack: 81 A5 68 65 6C 6C 6F 7B
    let msgpack = vec![0x81, 0xa5, 0x68, 0x65, 0x6c, 0x6c, 0x6f, 0x7b];
    let json = "{\n  \"hello\": 123\n}";

    let mappings = create_position_mappings(&msgpack, json);

    assert_eq!(mappings.len(), 2);

    let key_mapping = mappings.iter().find(|m| m.mapping_type == MappingType::Key);
    assert!(key_mapping.is_some());
    let key_mapping = key_mapping.unwrap();
    assert_eq!(key_mapping.hex_start, 1);
    assert_eq!(key_mapping.hex_end, 7);

    let value_mapping = mappings
        .iter()
        .find(|m| m.mapping_type == MappingType::Value);
    assert!(value_mapping.is_some());
    let value_mapping = value_mapping.unwrap();
    assert_eq!(value_mapping.hex_start, 7);
    assert_eq!(value_mapping.hex_end, 8);
}

#[test]
fn test_create_position_mappings_array() {
    // [1, 2, 3] in msgpack: 93 01 02 03
    let msgpack = vec![0x93, 0x01, 0x02, 0x03];
    let json = "[\n  1,\n  2,\n  3\n]";

    let mappings = create_position_mappings(&msgpack, json);

    assert_eq!(mappings.len(), 3);
    assert!(mappings
        .iter()
        .all(|m| m.mapping_type == MappingType::Value));

    assert_eq!(mappings[0].hex_start, 1);
    assert_eq!(mappings[0].hex_end, 2);
    assert_eq!(mappings[1].hex_start, 2);
    assert_eq!(mappings[1].hex_end, 3);
    assert_eq!(mappings[2].hex_start, 3);
    assert_eq!(mappings[2].hex_end, 4);
}

#[test]
fn test_create_position_mappings_null_true_false() {
    // [null, true, false] in msgpack: 93 C0 C3 C2
    let msgpack = vec![0x93, 0xc0, 0xc3, 0xc2];
    let json = "[\n  null,\n  true,\n  false\n]";

    let mappings = create_position_mappings(&msgpack, json);

    assert_eq!(mappings.len(), 3);
}

#[test]
fn test_find_hex_range_for_json_selection() {
    let msgpack = vec![0x81, 0xa5, 0x68, 0x65, 0x6c, 0x6c, 0x6f, 0x7b];
    let json = "{\n  \"hello\": 123\n}";
    let mappings = create_position_mappings(&msgpack, json);

    let hello_start = json.find("\"hello\"").unwrap();
    let hello_end = hello_start + "\"hello\"".len();

    let range = find_hex_range_for_json_selection(&mappings, hello_start, hello_end);

    assert!(range.is_some());
    let (hex_start, hex_end) = range.unwrap();
    assert_eq!(hex_start, 1);
    assert_eq!(hex_end, 7);
}

#[test]
fn test_find_hex_range_no_selection() {
    let msgpack = vec![0x81, 0xa5, 0x68, 0x65, 0x6c, 0x6c, 0x6f, 0x7b];
    let json = "{\n  \"hello\": 123\n}";
    let mappings = create_position_mappings(&msgpack, json);

    let range = find_hex_range_for_json_selection(&mappings, 0, 1);
    assert!(range.is_none());
}

#[test]
fn test_byte_range_to_hex_char_range() {
    let (start, end) = byte_range_to_hex_char_range(0, 1);
    assert_eq!(start, 0);
    assert_eq!(end, 2);

    let (start, end) = byte_range_to_hex_char_range(0, 2);
    assert_eq!(start, 0);
    assert_eq!(end, 5);

    let (start, end) = byte_range_to_hex_char_range(1, 3);
    assert_eq!(start, 3);
    assert_eq!(end, 8);
}

#[test]
fn test_safe_array_bounds_checking() {
    let data = vec![0x01, 0x02, 0x03];

    let result: Result<[u8; 2], UnpackError> = safe_array(&data, 0);
    assert!(result.is_ok());

    let result: Result<[u8; 4], UnpackError> = safe_array(&data, 0);
    assert!(result.is_err());

    let result: Result<[u8; 2], UnpackError> = safe_array(&data, 10);
    assert!(result.is_err());
}

#[test]
fn test_safe_byte_bounds_checking() {
    let data = vec![0x01, 0x02];

    assert_eq!(safe_byte(&data, 0).unwrap(), 0x01);
    assert_eq!(safe_byte(&data, 1).unwrap(), 0x02);

    assert!(safe_byte(&data, 2).is_err());
    assert!(safe_byte(&data, 100).is_err());
}

#[test]
fn test_truncated_data_handling() {
    // Truncated float32 data (needs 5 bytes, only 2 provided)
    let truncated_data = vec![0xca, 0x40];
    let result = parse_msgpack_value(&truncated_data, 0);
    assert!(result.is_err());
}

#[test]
fn mapping_text_spans_of_simple_object() {
    let msgpack = vec![0x81, 0xa5, 0x68, 0x65, 0x6c, 0x6c, 0x6f, 0x7b];
    let json = "{\n  \"hello\": 123\n}";
    let mappings = create_position_mappings(&msgpack, json);
    assert_eq!(mappings.len(), 2);
    assert_eq!((mappings[0].json_start, mappings[0].json_end), (4, 11));
    assert_eq!(mappings[0].mapping_type, MappingType::Key);
    assert_eq!((mappings[1].json_start, mappings[1].json_end), (13, 16));
    assert_eq!(mappings[1].mapping_type, MappingType::Value);
}

#[test]
fn mapping_of_float_uses_printed_length() {
    // [1.5, 2] : 92 cb 3ff8000000000000 02
    let msgpack = vec![0x92, 0xcb, 0x3f, 0xf8, 0, 0, 0, 0, 0, 0, 0x02];
    let json = "[\n  1.5,\n  2\n]";
    let mappings = create_position_mappings(&msgpack, json);
    assert_eq!(mappings.len(), 2);
    assert_eq!((mappings[0].json_start, mappings[0].json_end), (4, 7));
    assert_eq!((mappings[0].hex_start, mappings[0].hex_end), (1, 10));
    assert_eq!((mappings[1].json_start, mappings[1].json_end), (11, 12));
    assert_eq!((mappings[1].hex_start, mappings[1].hex_end), (10, 11));
}

#[test]
fn mappings_are_empty_when_bytes_are_truncated() {
    // array of three, but only two items present
    let msgpack = vec![0x93, 0x01, 0x02];
    let json = "[\n  1,\n  2,\n  3\n]";
    assert!(create_position_mappings(&msgpack, json).is_empty());
    assert!(create_position_mappings(&[], json).is_empty());
    assert!(create_position_mappings(&[0xc1], "null").is_empty());
}

#[test]
fn selection_over_two_fields_gives_their_union() {
    let msgpack = vec![0x93, 0x01, 0x02, 0x03];
    let json = "[\n  1,\n  2,\n  3\n]";
    let mappings = create_position_mappings(&msgpack, json);
    // from the "1" to the "2"
    assert_eq!(find_hex_range_for_json_selection(&mappings, 4, 10), Some((1, 3)));
    // empty selection overlaps nothing
    assert_eq!(find_hex_range_for_json_selection(&mappings, 4, 4), None);
    assert_eq!(find_hex_range_for_json_selection(&[], 0, 100), None);
}

#[test]
fn skipping_white_space_and_delimiters() {
    assert_eq!(skip_whitespace("  \n\tx", 0), 4);
    assert_eq!(skip_whitespace("abc", 1), 1);
    assert_eq!(skip_whitespace("   ", 1), 3);
    assert_eq!(skip_whitespace("ab", 7), 7);
    assert_eq!(skip_whitespace("\u{a0}\u{3000}x", 0), 2);
    assert_eq!(skip_whitespace_and_delimiters(" , ,x", 0, ","), 4);
    assert_eq!(skip_whitespace_and_delimiters(" : x", 0, ","), 1);
    assert_eq!(skip_whitespace_and_delimiters(":, x", 0, ",:"), 3);
}

fn scalars_and_keys(v: &Value) -> usize {
    match v {
        Value::Array(items) => items.iter().map(scalars_and_keys).sum(),
        Value::Object(entries) => entries.iter().map(|(_, v)| 1 + scalars_and_keys(v)).sum(),
        _ => 1,
    }
}

#[test]
fn mappings_follow_the_printed_text() {
    let texts = [
        r#"{"hello": 123}"#,
        r#"[1, 2, 3]"#,
        r#"[]"#,
        r#"{}"#,
        r#"7"#,
        r#""x""#,
        r#"[[], {}, [[]], {"k": {}}]"#,
        r#"{"a": [1, -2, 3.25, 1e300, 1e-7, "q\"\\\n\u0001", null, true, false], "b": {"c": {"d": [18446744073709551615, -9223372036854775808]}}, "": ""}"#,
        r#"[" , ", ":", " x ", "é😀", {" ": [" "]}]"#,
    ];
    for text in texts {
        let value = from_json(text).unwrap();
        let bytes = encode(&value).unwrap();
        let printed = to_json(&value).unwrap();
        let chars: Vec<char> = printed.chars().collect();
        let mappings = create_position_mappings(&bytes, &printed);
        assert_eq!(mappings.len(), scalars_and_keys(&value), "for {}", text);
        let mut last_text = 0;
        let mut last_byte = 0;
        for m in &mappings {
            assert!(last_text <= m.json_start && m.json_start < m.json_end);
            assert!(last_byte <= m.hex_start && m.hex_start < m.hex_end);
            last_text = m.json_end;
            last_byte = m.hex_end;
            let shown: String = chars[m.json_start..m.json_end].iter().collect();
            let (scalar, end) = parse_msgpack_value(&bytes, m.hex_start).unwrap();
            assert_eq!(end, m.hex_end);
            // the marked text is the JSON text of the marked bytes
            assert_eq!(from_json(&shown).unwrap(), scalar, "for {}", text);
            assert_eq!(to_json(&scalar).unwrap(), shown, "for {}", text);
        }
    }
}

#[test]
fn keys_that_are_no_strings_are_mapped_as_they_are_printed() {
    // {5: true}: the key is printed as "5"
    let msgpack = vec![0x81, 0x05, 0xc3];
    let json = "{\n  \"5\": true\n}";
    let mappings = create_position_mappings(&msgpack, json);
    assert_eq!(mappings.len(), 2);
    assert_eq!((mappings[0].json_start, mappings[0].json_end), (4, 7));
    assert_eq!((mappings[0].hex_start, mappings[0].hex_end), (1, 2));
    assert_eq!(mappings[0].mapping_type, MappingType::Key);
    assert_eq!((mappings[1].json_start, mappings[1].json_end), (9, 13));
    assert_eq!((mappings[1].hex_start, mappings[1].hex_end), (2, 3));
}

#[test]
fn binary_fields_get_no_mapping() {
    // [bin(2), 1]
    let msgpack = vec![0x92, 0xc4, 0x02, 0xaa, 0xbb, 0x01];
    let json = "[\n  1\n]";
    let mappings = create_position_mappings(&msgpack, json);
    assert_eq!(mappings.len(), 1);
    assert_eq!((mappings[0].hex_start, mappings[0].hex_end), (5, 6));
    assert_eq!((mappings[0].json_start, mappings[0].json_end), (4, 5));
}

#[test]
fn mapping_stops_at_the_depth_limit() {
    let mut bytes = vec![0x91u8; 129];
    bytes.push(0x01);
    assert!(create_position_mappings(&bytes, "1").is_empty());
    let mut bytes = vec![0x91u8; 128];
    bytes.push(0x01);
    assert_eq!(create_position_mappings(&bytes, "1").len(), 1);
}

#[test]
fn random_bytes_and_texts_never_break_the_mapper() {
    let mut state: u64 = 0x1234_5678;
    let mut next = move || {
        state = state.wrapping_mul(6364136223846793005).wrapping_add(1442695040888963407);
        state >> 33
    };
    let pool = ['{', '}', '[', ']', ',', ':', '"', ' ', '\n', '1', 'a', '\u{e9}'];
    for _ in 0..20000 {
        let len = (next() % 16) as usize;
        let bytes: Vec<u8> = (0..len).map(|_| next() as u8).collect();
        let text_len = (next() % 12) as usize;
        let text: String = (0..text_len).map(|_| pool[(next() % 12) as usize]).collect();
        let mappings = create_position_mappings(&bytes, &text);
        let mut last_text = 0;
        let mut last_byte = 0;
        for m in &mappings {
            assert!(last_byte <= m.hex_start && m.hex_start < m.hex_end && m.hex_end <= len);
            assert!(last_text <= m.json_start && m.json_start <= m.json_end);
            last_text = m.json_end;
            last_byte = m.hex_end;
        }
        let from = (next() % 16) as usize;
        let to = (next() % 16) as usize;
        if let Some((a, b)) = find_hex_range_for_json_selection(&mappings, from, to) {
            assert!(a < b && b <= len);
        }
    }
}
