use msgpack_converter::converter::{
    base64_to_hex, hex_to_base64, json_to_msgpack, msgpack_to_json, selection_to_hex_range,
};
use msgpack_converter::cursor::UnpackError;
use msgpack_converter::encoder::EncodeError;
use msgpack_converter::error::ConvertError;

#[test]
fn test_msgpack_to_json() {
    // {"hello": "world"} in msgpack, base64 encoded
    let msgpack_base64 = "gaVoZWxsb6V3b3JsZA==";
    let json = msgpack_to_json(msgpack_base64).unwrap();
    let value: serde_json::Value = serde_json::from_str(&json).unwrap();
    assert_eq!(value["hello"], "world");
}

#[test]
fn test_json_to_msgpack() {
    let json = r#"{"hello": "world"}"#;
    let msgpack = json_to_msgpack(json).unwrap();
    let back_to_json = msgpack_to_json(&msgpack).unwrap();
    let value: serde_json::Value = serde_json::from_str(&back_to_json).unwrap();
    assert_eq!(value["hello"], "world");
}

#[test]
fn test_large_integers() {
    // Test with a value larger than JavaScript's MAX_SAFE_INTEGER
    let json = r#"{"value": 9007199254740993}"#;
    let msgpack = json_to_msgpack(json).unwrap();
    let back_to_json = msgpack_to_json(&msgpack).unwrap();
    assert!(back_to_json.contains("9007199254740993"));
}

#[test]
fn converter_test_base64_to_hex() {
    let hex = base64_to_hex("aGVsbG8=").unwrap();
    assert_eq!(hex, "68 65 6C 6C 6F");
}

#[test]
fn converter_test_hex_to_base64() {
    let base64 = hex_to_base64("68 65 6C 6C 6F").unwrap();
    assert_eq!(base64, "aGVsbG8=");
}

#[test]
fn test_hex_roundtrip() {
    let original = "gaVoZWxsb6V3b3JsZA==";
    let hex = base64_to_hex(original).unwrap();
    let result = hex_to_base64(&hex).unwrap();
    assert_eq!(result, original);
}

#[test]
fn test_msgpack_to_json_simple() {
    // {"hello": "world"} in msgpack, base64 encoded
    let msgpack_base64 = "gaVoZWxsb6V3b3JsZA==";
    let json = msgpack_to_json(msgpack_base64).unwrap();
    let parsed: serde_json::Value = serde_json::from_str(&json).unwrap();
    assert_eq!(parsed["hello"], "world");
}

#[test]
fn test_json_to_msgpack_roundtrip() {
    let json = r#"{"hello": "world"}"#;
    let msgpack = json_to_msgpack(json).unwrap();
    let back_to_json = msgpack_to_json(&msgpack).unwrap();
    let parsed: serde_json::Value = serde_json::from_str(&back_to_json).unwrap();
    assert_eq!(parsed["hello"], "world");
}

#[test]
fn test_roundtrip_base64_hex() {
    let original = "gaVoZWxsb6V3b3JsZA==";
    let hex = base64_to_hex(original).unwrap();
    let result = hex_to_base64(&hex).unwrap();
    assert_eq!(result, original);
}

#[test]
fn msgpack_to_json_prints_the_canonical_layout() {
    assert_eq!(
        msgpack_to_json("gaVoZWxsb6V3b3JsZA==").unwrap(),
        "{\n  \"hello\": \"world\"\n}"
    );
    // [1, [], {}, {"a": [true, null]}]
    let bytes = [0x94, 0x01, 0x90, 0x80, 0x81, 0xa1, 0x61, 0x92, 0xc3, 0xc0];
    let b64 = hex_to_base64(&bytes.iter().map(|b| format!("{:02x}", b)).collect::<String>()).unwrap();
    let text = msgpack_to_json(&b64).unwrap();
    assert_eq!(
        text,
        "[\n  1,\n  [],\n  {},\n  {\n    \"a\": [\n      true,\n      null\n    ]\n  }\n]"
    );
    let value: serde_json::Value = serde_json::from_str(&text).unwrap();
    assert_eq!(serde_json::to_string_pretty(&value).unwrap(), text);
}

#[test]
fn json_to_msgpack_gives_the_bytes_of_the_narrowest_formats() {
    assert_eq!(json_to_msgpack(r#"{"hello": "world"}"#).unwrap(), "gaVoZWxsb6V3b3JsZA==");
    assert_eq!(base64_to_hex(&json_to_msgpack("123").unwrap()).unwrap(), "7B");
    assert_eq!(base64_to_hex(&json_to_msgpack("-1").unwrap()).unwrap(), "FF");
    assert_eq!(base64_to_hex(&json_to_msgpack("128").unwrap()).unwrap(), "CC 80");
    assert_eq!(base64_to_hex(&json_to_msgpack("-33").unwrap()).unwrap(), "D0 DF");
    assert_eq!(base64_to_hex(&json_to_msgpack("65536").unwrap()).unwrap(), "CE 00 01 00 00");
    assert_eq!(
        base64_to_hex(&json_to_msgpack("18446744073709551615").unwrap()).unwrap(),
        "CF FF FF FF FF FF FF FF FF"
    );
    assert_eq!(
        base64_to_hex(&json_to_msgpack("-9223372036854775808").unwrap()).unwrap(),
        "D3 80 00 00 00 00 00 00 00"
    );
    assert_eq!(
        base64_to_hex(&json_to_msgpack("1.5").unwrap()).unwrap(),
        "CB 3F F8 00 00 00 00 00 00"
    );
    assert_eq!(
        base64_to_hex(&json_to_msgpack(" [null, true, false, \"\\u00e9\\n\"] ").unwrap()).unwrap(),
        "94 C0 C3 C2 A3 C3 A9 0A"
    );
}

#[test]
fn json_to_msgpack_agrees_with_rmp_serde() {
    let texts = [
        r#"{"a": [1, -2, 3.25, 1e300, -0.0, 18446744073709551616, "x\ud83d\ude00y"], "b": {"c": null}}"#,
        r#"[0, 127, 128, 255, 256, 65535, 65536, 4294967295, 4294967296, -32, -33, -128, -129, -32768, -32769, -2147483648, -2147483649]"#,
        r#""abcdefghijklmnopqrstuvwxyzabcdefghijklmnopqrstuvwxyz""#,
        r#"[1,2,3,4,5,6,7,8,9,10,11,12,13,14,15,16,17]"#,
    ];
    for text in texts {
        let value: serde_json::Value = serde_json::from_str(text).unwrap();
        let expected = rmp_serde::to_vec(&value).unwrap();
        let ours = json_to_msgpack(text).unwrap();
        let hex = base64_to_hex(&ours).unwrap();
        let expected_hex =
            expected.iter().map(|b| format!("{:02X}", b)).collect::<Vec<_>>().join(" ");
        assert_eq!(hex, expected_hex, "for {}", text);
    }
}

#[test]
fn msgpack_to_json_agrees_with_serde_json_on_what_both_accept() {
    let texts = [
        r#"{"a": [1, -2, 3.25, 1e300, 1e-7, 0.1, 123456789.125], "b": {"c": null, "d": "q\"\\\n\u0001"}}"#,
        r#"[[], {}, [[]], {"k": {}}]"#,
        r#"{"value": 9007199254740993, "big": 18446744073709551615, "small": -9223372036854775808}"#,
    ];
    for text in texts {
        let value: serde_json::Value = serde_json::from_str(text).unwrap();
        let expected = serde_json::to_string_pretty(&value).unwrap();
        let ours = msgpack_to_json(&json_to_msgpack(text).unwrap()).unwrap();
        assert_eq!(ours, expected, "for {}", text);
    }
}

#[test]
fn every_error_has_an_input() {
    assert_eq!(msgpack_to_json("not base64!"), Err(ConvertError::InvalidBase64));
    assert_eq!(base64_to_hex("aGVsbG8"), Err(ConvertError::InvalidBase64));
    assert_eq!(base64_to_hex(" aGVsbG8="), Err(ConvertError::InvalidBase64));
    // c1 is the one byte that MessagePack never uses
    assert_eq!(
        msgpack_to_json("wQ=="),
        Err(ConvertError::Msgpack(UnpackError::UnknownFormatByte))
    );
    // float64 tag with three bytes behind it
    assert_eq!(
        msgpack_to_json("y0AAAA=="),
        Err(ConvertError::Msgpack(UnpackError::TruncatedData))
    );
    assert_eq!(msgpack_to_json(""), Err(ConvertError::Msgpack(UnpackError::TruncatedData)));
    assert_eq!(json_to_msgpack("{\"a\": }"), Err(ConvertError::JsonParse));
    assert_eq!(json_to_msgpack(""), Err(ConvertError::JsonParse));
    assert_eq!(json_to_msgpack("1 2"), Err(ConvertError::JsonParse));
    assert_eq!(json_to_msgpack("[1,]"), Err(ConvertError::JsonParse));
    assert_eq!(json_to_msgpack("01"), Err(ConvertError::JsonParse));
    assert_eq!(json_to_msgpack("1e999"), Err(ConvertError::JsonParse));
    assert_eq!(json_to_msgpack("\"\\ud800\""), Err(ConvertError::JsonParse));
    assert_eq!(json_to_msgpack("\"a\nb\""), Err(ConvertError::JsonParse));
    assert_eq!(hex_to_base64("ABC"), Err(ConvertError::InvalidHex));
    assert_eq!(hex_to_base64("GG"), Err(ConvertError::InvalidHex));
    assert_eq!(hex_to_base64("+F"), Err(ConvertError::InvalidHex));
}

#[test]
fn hex_reading_takes_white_space_and_both_cases() {
    assert_eq!(hex_to_base64("68656c6c6f").unwrap(), "aGVsbG8=");
    assert_eq!(hex_to_base64(" 68\n65\t6C 6c  6F ").unwrap(), "aGVsbG8=");
    assert_eq!(hex_to_base64("6 8 6 5").unwrap(), "aGU=");
    assert_eq!(hex_to_base64("").unwrap(), "");
    assert_eq!(hex_to_base64("   ").unwrap(), "");
    assert_eq!(base64_to_hex("").unwrap(), "");
    assert_eq!(base64_to_hex("AA==").unwrap(), "00");
    assert_eq!(base64_to_hex("/w8=").unwrap(), "FF 0F");
}

#[test]
fn base64_to_hex_and_back_gives_the_same_text() {
    for text in ["", "AA==", "AAA=", "AAAA", "gaVoZWxsb6V3b3JsZA==", "////", "kwECAw=="] {
        let hex = base64_to_hex(text).unwrap();
        assert_eq!(hex_to_base64(&hex).unwrap(), text);
    }
}

#[test]
fn deep_nesting_is_refused_not_overflowed() {
    let deep = "[".repeat(128) + &"]".repeat(128);
    assert!(json_to_msgpack(&deep).is_ok());
    let deeper = "[".repeat(129) + &"]".repeat(129);
    assert_eq!(json_to_msgpack(&deeper), Err(ConvertError::JsonParse));
    let mut bytes = vec![0x91u8; 128];
    bytes.push(0xc0);
    let hex = bytes.iter().map(|b| format!("{:02X}", b)).collect::<Vec<_>>().join(" ");
    assert!(msgpack_to_json(&hex_to_base64(&hex).unwrap()).is_ok());
    let mut bytes = vec![0x91u8; 129];
    bytes.push(0xc0);
    let hex = bytes.iter().map(|b| format!("{:02X}", b)).collect::<Vec<_>>().join(" ");
    assert_eq!(
        msgpack_to_json(&hex_to_base64(&hex).unwrap()),
        Err(ConvertError::Msgpack(UnpackError::NestingTooDeep))
    );
    let long = vec![0x91u8; 100_000];
    let hex = long.iter().map(|b| format!("{:02X}", b)).collect::<Vec<_>>().join(" ");
    assert_eq!(
        msgpack_to_json(&hex_to_base64(&hex).unwrap()),
        Err(ConvertError::Msgpack(UnpackError::NestingTooDeep))
    );
}

#[test]
fn accepted_base64_is_the_encoding_of_its_bytes() {
    let alphabet = ['A', 'B', 'Q', 'g', 'w', '9', '+', '/', '=', ' '];
    let mut accepted = 0;
    for a in alphabet {
        for b in alphabet {
            for c in alphabet {
                for d in alphabet {
                    let text: String = [a, b, c, d].iter().collect();
                    if let Ok(hex) = base64_to_hex(&text) {
                        accepted += 1;
                        assert_eq!(hex_to_base64(&hex).unwrap(), text);
                    }
                }
            }
        }
    }
    // three bytes; two bytes and one pad, where the third character ends in
    // two zero bits; one byte and two pads, where the second ends in four
    assert_eq!(accepted, 8 * 8 * 8 * 8 + 8 * 8 * 4 + 8 * 4);
    // stray bits behind the last byte are refused
    assert_eq!(base64_to_hex("aGVsbG9="), Err(ConvertError::InvalidBase64));
    assert_eq!(base64_to_hex("aGVsbG8=="), Err(ConvertError::InvalidBase64));
    assert_eq!(base64_to_hex("aGVs\nbG8="), Err(ConvertError::InvalidBase64));
}

#[test]
fn selection_is_turned_into_a_span_of_the_hex_dump() {
    let base64 = "gaVoZWxsb3s="; // {"hello": 123}
    let json = msgpack_to_json(base64).unwrap();
    assert_eq!(json, "{\n  \"hello\": 123\n}");
    assert_eq!(base64_to_hex(base64).unwrap(), "81 A5 68 65 6C 6C 6F 7B");
    // the key
    assert_eq!(selection_to_hex_range(base64, &json, 4, 11), Some((3, 20)));
    // one character of the value
    assert_eq!(selection_to_hex_range(base64, &json, 14, 15), Some((21, 23)));
    // key and value
    assert_eq!(selection_to_hex_range(base64, &json, 10, 14), Some((3, 23)));
    // the brace, no selection, no text, no bytes, no base64
    assert_eq!(selection_to_hex_range(base64, &json, 0, 1), None);
    assert_eq!(selection_to_hex_range(base64, &json, 5, 5), None);
    assert_eq!(selection_to_hex_range(base64, "", 0, 1), None);
    assert_eq!(selection_to_hex_range("", &json, 4, 11), None);
    assert_eq!(selection_to_hex_range("!", &json, 4, 11), None);
    assert_eq!(selection_to_hex_range("gaVoZWxsbw==", &json, 4, 11), None);
}

#[test]
fn every_error_has_a_message() {
    let errors = [
        ConvertError::InvalidBase64,
        ConvertError::InvalidHex,
        ConvertError::Msgpack(UnpackError::TruncatedData),
        ConvertError::Msgpack(UnpackError::UnknownFormatByte),
        ConvertError::Msgpack(UnpackError::NestingTooDeep),
        ConvertError::JsonParse,
        ConvertError::JsonSerialize,
        ConvertError::Encode(EncodeError::TooLong),
    ];
    let mut seen: Vec<String> = Vec::new();
    for e in errors {
        let message = e.message();
        assert!(!message.is_empty());
        assert!(!seen.contains(&message));
        seen.push(message);
    }
    assert_eq!(ConvertError::InvalidBase64.message(), "Invalid Base64 string");
    assert_eq!(
        msgpack_to_json("wQ==").unwrap_err().message(),
        "Failed to decode msgpack: unknown format byte"
    );
}
