use msgpack_converter::cursor::UnpackError;
use msgpack_converter::decoder::{classify, parse_msgpack_value, Format};
use msgpack_converter::encoder::encode;
use msgpack_converter::error::ConvertError;
use msgpack_converter::format::{is_space, to_chars, to_text};
use msgpack_converter::json::to_json;
use msgpack_converter::parser::from_json;
use msgpack_converter::value::Value;

fn decode(bytes: &[u8]) -> Value {
    let (v, end) = parse_msgpack_value(bytes, 0).unwrap();
    assert_eq!(end, bytes.len());
    v
}

#[test]
fn decodes_every_scalar_format() {
    assert_eq!(decode(&[0x00]), Value::UInt(0));
    assert_eq!(decode(&[0x7f]), Value::UInt(127));
    assert_eq!(decode(&[0xff]), Value::Int(-1));
    assert_eq!(decode(&[0xe0]), Value::Int(-32));
    assert_eq!(decode(&[0xc0]), Value::Null);
    assert_eq!(decode(&[0xc2]), Value::Bool(false));
    assert_eq!(decode(&[0xc3]), Value::Bool(true));
    assert_eq!(decode(&[0xcc, 0xff]), Value::UInt(255));
    assert_eq!(decode(&[0xcd, 0x01, 0x02]), Value::UInt(0x0102));
    assert_eq!(decode(&[0xce, 0x01, 0x02, 0x03, 0x04]), Value::UInt(0x0102_0304));
    assert_eq!(decode(&[0xcf, 0xff, 0xff, 0xff, 0xff, 0xff, 0xff, 0xff, 0xff]), Value::UInt(u64::MAX));
    assert_eq!(decode(&[0xd0, 0x80]), Value::Int(-128));
    assert_eq!(decode(&[0xd0, 0x7f]), Value::UInt(127));
    assert_eq!(decode(&[0xd1, 0x80, 0x00]), Value::Int(-32768));
    assert_eq!(decode(&[0xd1, 0xff, 0xfe]), Value::Int(-2));
    assert_eq!(decode(&[0xd2, 0x80, 0x00, 0x00, 0x00]), Value::Int(i32::MIN as i64));
    assert_eq!(decode(&[0xd3, 0x80, 0, 0, 0, 0, 0, 0, 0]), Value::Int(i64::MIN));
    assert_eq!(decode(&[0xd3, 0xff, 0xff, 0xff, 0xff, 0xff, 0xff, 0xff, 0xff]), Value::Int(-1));
    assert_eq!(decode(&[0xd3, 0x7f, 0xff, 0xff, 0xff, 0xff, 0xff, 0xff, 0xff]), Value::UInt(i64::MAX as u64));
    assert_eq!(decode(&[0xa0]), Value::Str(String::new()));
    assert_eq!(decode(&[0xa2, b'h', b'i']), Value::Str(String::from("hi")));
    assert_eq!(decode(&[0xd9, 0x02, b'h', b'i']), Value::Str(String::from("hi")));
    assert_eq!(decode(&[0xda, 0x00, 0x02, b'h', b'i']), Value::Str(String::from("hi")));
    assert_eq!(decode(&[0xdb, 0x00, 0x00, 0x00, 0x02, b'h', b'i']), Value::Str(String::from("hi")));
    // invalid UTF-8 is replaced, never fatal
    assert_eq!(decode(&[0xa2, 0xff, b'a']), Value::Str(String::from("\u{fffd}a")));
    // binary is passed over and decodes to null
    assert_eq!(decode(&[0xc4, 0x02, 1, 2]), Value::Null);
    assert_eq!(decode(&[0xc5, 0x00, 0x01, 9]), Value::Null);
    assert_eq!(decode(&[0xc6, 0x00, 0x00, 0x00, 0x00]), Value::Null);
}

#[test]
fn decodes_floats_to_their_bits() {
    assert_eq!(decode(&[0xcb, 0x3f, 0xf8, 0, 0, 0, 0, 0, 0]), Value::Float(1.5f64.to_bits()));
    assert_eq!(decode(&[0xca, 0x3f, 0xc0, 0, 0]), Value::Float(1.5f64.to_bits()));
    // not finite: zero
    assert_eq!(decode(&[0xcb, 0x7f, 0xf0, 0, 0, 0, 0, 0, 0]), Value::UInt(0));
    assert_eq!(decode(&[0xcb, 0xff, 0xf8, 0, 0, 0, 0, 0, 1]), Value::UInt(0));
    assert_eq!(decode(&[0xca, 0x7f, 0x80, 0, 0]), Value::UInt(0));
    assert_eq!(decode(&[0xca, 0xff, 0xc0, 0, 0]), Value::UInt(0));
}

#[test]
fn widening_of_float32_agrees_with_the_machine() {
    let mut samples: Vec<u32> = vec![
        0, 0x8000_0000, 1, 2, 3, 0x007f_ffff, 0x0040_0000, 0x0000_8000, 0x0080_0000, 0x8000_0001,
        0x3f80_0000, 0x7f7f_ffff, 0xff7f_ffff, 0x3dcc_cccd, 0x4049_0fdb, 0x0012_3456, 0x8012_3456,
    ];
    let mut x: u32 = 12345;
    for _ in 0..200_000 {
        x = x.wrapping_mul(1_664_525).wrapping_add(1_013_904_223);
        samples.push(x);
    }
    for bits in samples {
        let single = f32::from_bits(bits);
        let b = bits.to_be_bytes();
        let got = decode(&[0xca, b[0], b[1], b[2], b[3]]);
        if single.is_finite() {
            assert_eq!(got, Value::Float((single as f64).to_bits()), "for {:#x}", bits);
        } else {
            assert_eq!(got, Value::UInt(0));
        }
    }
}

#[test]
fn decodes_containers_in_order() {
    assert_eq!(
        decode(&[0x93, 0x01, 0xa1, b'a', 0x90]),
        Value::Array(vec![Value::UInt(1), Value::Str(String::from("a")), Value::Array(vec![])])
    );
    assert_eq!(
        decode(&[0xdc, 0x00, 0x01, 0xc0]),
        Value::Array(vec![Value::Null])
    );
    assert_eq!(
        decode(&[0xdd, 0x00, 0x00, 0x00, 0x01, 0xc0]),
        Value::Array(vec![Value::Null])
    );
    assert_eq!(
        decode(&[0x82, 0xa1, b'b', 0x01, 0xa1, b'a', 0x02]),
        Value::Object(vec![
            (String::from("b"), Value::UInt(1)),
            (String::from("a"), Value::UInt(2)),
        ])
    );
    assert_eq!(
        decode(&[0xde, 0x00, 0x01, 0xa1, b'k', 0xc3]),
        Value::Object(vec![(String::from("k"), Value::Bool(true))])
    );
    assert_eq!(
        decode(&[0xdf, 0x00, 0x00, 0x00, 0x01, 0xa1, b'k', 0xc3]),
        Value::Object(vec![(String::from("k"), Value::Bool(true))])
    );
}

#[test]
fn map_keys_become_strings_and_stay_unique() {
    // {5: 1, true: 2, [1, "x"]: 3, null: 4, 1.5: 5}
    assert_eq!(
        decode(&[
            0x85, 0x05, 0x01, 0xc3, 0x02, 0x92, 0x01, 0xa1, b'x', 0x03, 0xc0, 0x04, 0xcb, 0x3f,
            0xf8, 0, 0, 0, 0, 0, 0, 0x05
        ]),
        Value::Object(vec![
            (String::from("5"), Value::UInt(1)),
            (String::from("true"), Value::UInt(2)),
            (String::from("[1,\"x\"]"), Value::UInt(3)),
            (String::from("null"), Value::UInt(4)),
            (String::from("1.5"), Value::UInt(5)),
        ])
    );
    // {"a": 1, "b": 2, "a": 3}: the later value, at the earlier place
    assert_eq!(
        decode(&[0x83, 0xa1, b'a', 0x01, 0xa1, b'b', 0x02, 0xa1, b'a', 0x03]),
        Value::Object(vec![
            (String::from("a"), Value::UInt(3)),
            (String::from("b"), Value::UInt(2)),
        ])
    );
}

#[test]
fn truncated_input_fails_with_truncated_data() {
    // float64 tag followed by fewer than 8 bytes
    for n in 0..8 {
        let mut bytes = vec![0xcbu8];
        bytes.extend(std::iter::repeat(0x40).take(n));
        assert_eq!(parse_msgpack_value(&bytes, 0), Err(UnpackError::TruncatedData));
    }
    assert_eq!(parse_msgpack_value(&[], 0), Err(UnpackError::TruncatedData));
    assert_eq!(parse_msgpack_value(&[0x01], 1), Err(UnpackError::TruncatedData));
    assert_eq!(parse_msgpack_value(&[0x01], usize::MAX), Err(UnpackError::TruncatedData));
    assert_eq!(parse_msgpack_value(&[0xa5, b'h', b'e'], 0), Err(UnpackError::TruncatedData));
    assert_eq!(parse_msgpack_value(&[0xd9], 0), Err(UnpackError::TruncatedData));
    assert_eq!(parse_msgpack_value(&[0xd9, 0x02, b'h'], 0), Err(UnpackError::TruncatedData));
    assert_eq!(parse_msgpack_value(&[0xdb, 0xff, 0xff, 0xff, 0xff, b'h'], 0), Err(UnpackError::TruncatedData));
    assert_eq!(parse_msgpack_value(&[0xc4, 0x02, 1], 0), Err(UnpackError::TruncatedData));
    assert_eq!(parse_msgpack_value(&[0xca, 0x40], 0), Err(UnpackError::TruncatedData));
    assert_eq!(parse_msgpack_value(&[0xcd, 0x40], 0), Err(UnpackError::TruncatedData));
    assert_eq!(parse_msgpack_value(&[0xd3, 1, 2, 3, 4, 5, 6, 7], 0), Err(UnpackError::TruncatedData));
    assert_eq!(parse_msgpack_value(&[0x92, 0x01], 0), Err(UnpackError::TruncatedData));
    assert_eq!(parse_msgpack_value(&[0x81, 0xa1, b'k'], 0), Err(UnpackError::TruncatedData));
    assert_eq!(parse_msgpack_value(&[0xdd, 0xff, 0xff, 0xff, 0xff], 0), Err(UnpackError::TruncatedData));
}

#[test]
fn unknown_leading_bytes_are_refused() {
    for b in [0xc1u8, 0xc7, 0xc8, 0xc9, 0xd4, 0xd5, 0xd6, 0xd7, 0xd8] {
        assert_eq!(classify(b), Format::Unknown);
        assert_eq!(parse_msgpack_value(&[b, 0, 0, 0], 0), Err(UnpackError::UnknownFormatByte));
    }
    assert_eq!(parse_msgpack_value(&[0x91, 0xc1], 0), Err(UnpackError::UnknownFormatByte));
}

#[test]
fn decoding_starts_at_the_given_position() {
    let bytes = [0x01, 0xa2, b'h', b'i', 0xc0];
    assert_eq!(parse_msgpack_value(&bytes, 0), Ok((Value::UInt(1), 1)));
    assert_eq!(parse_msgpack_value(&bytes, 1), Ok((Value::Str(String::from("hi")), 4)));
    assert_eq!(parse_msgpack_value(&bytes, 4), Ok((Value::Null, 5)));
}

fn sample_values() -> Vec<Value> {
    let long_text: String = std::iter::repeat('x').take(70_000).collect();
    vec![
        Value::Null,
        Value::Bool(true),
        Value::Bool(false),
        Value::UInt(0),
        Value::UInt(127),
        Value::UInt(128),
        Value::UInt(255),
        Value::UInt(256),
        Value::UInt(65535),
        Value::UInt(65536),
        Value::UInt(u32::MAX as u64),
        Value::UInt(u32::MAX as u64 + 1),
        Value::UInt(9007199254740993),
        Value::UInt(u64::MAX),
        Value::Int(-1),
        Value::Int(-32),
        Value::Int(-33),
        Value::Int(-128),
        Value::Int(-129),
        Value::Int(-32768),
        Value::Int(-32769),
        Value::Int(i32::MIN as i64),
        Value::Int(i32::MIN as i64 - 1),
        Value::Int(i64::MIN),
        Value::Float(1.5f64.to_bits()),
        Value::Float((-0.0f64).to_bits()),
        Value::Float(f64::MAX.to_bits()),
        Value::Float(f64::MIN_POSITIVE.to_bits()),
        Value::Float(5e-324f64.to_bits()),
        Value::Str(String::new()),
        Value::Str(String::from("hello")),
        Value::Str(String::from("\u{e9}\u{1f600}\"\\\n\u{0}")),
        Value::Str(std::iter::repeat('a').take(31).collect()),
        Value::Str(std::iter::repeat('a').take(32).collect()),
        Value::Str(std::iter::repeat('a').take(255).collect()),
        Value::Str(std::iter::repeat('a').take(256).collect()),
        Value::Str(long_text),
        Value::Array(vec![]),
        Value::Array((0..15).map(Value::UInt).collect()),
        Value::Array((0..16).map(Value::UInt).collect()),
        Value::Array((0..70_000).map(Value::UInt).collect()),
        Value::Object(vec![]),
        Value::Object((0..17u64).map(|i| (format!("k{}", i), Value::UInt(i))).collect()),
        Value::Object(vec![
            (String::from("z"), Value::Array(vec![Value::Null, Value::Object(vec![])])),
            (String::from("a"), Value::Object(vec![(String::from(""), Value::Int(-7))])),
        ]),
    ]
}

#[test]
fn decoding_inverts_encoding() {
    for v in sample_values() {
        let bytes = encode(&v).unwrap();
        let (back, end) = parse_msgpack_value(&bytes, 0).unwrap();
        assert_eq!(end, bytes.len());
        assert_eq!(back, v);
    }
}

#[test]
fn encoding_takes_the_narrowest_format() {
    assert_eq!(encode(&Value::UInt(5)).unwrap(), vec![0x05]);
    assert_eq!(encode(&Value::Int(5)).unwrap(), vec![0x05]);
    assert_eq!(encode(&Value::UInt(200)).unwrap(), vec![0xcc, 200]);
    assert_eq!(encode(&Value::UInt(0x1234)).unwrap(), vec![0xcd, 0x12, 0x34]);
    assert_eq!(encode(&Value::Int(-1)).unwrap(), vec![0xff]);
    assert_eq!(encode(&Value::Int(-200)).unwrap(), vec![0xd1, 0xff, 0x38]);
    assert_eq!(
        encode(&Value::UInt(u64::MAX)).unwrap(),
        vec![0xcf, 0xff, 0xff, 0xff, 0xff, 0xff, 0xff, 0xff, 0xff]
    );
    assert_eq!(
        encode(&Value::UInt(i64::MAX as u64 + 1)).unwrap(),
        vec![0xcf, 0x80, 0, 0, 0, 0, 0, 0, 0]
    );
    assert_eq!(
        encode(&Value::Float(1.5f64.to_bits())).unwrap(),
        vec![0xcb, 0x3f, 0xf8, 0, 0, 0, 0, 0, 0]
    );
    assert_eq!(encode(&Value::Str(String::from("hi"))).unwrap(), vec![0xa2, b'h', b'i']);
    assert_eq!(
        encode(&Value::Array(vec![Value::Null, Value::Bool(true)])).unwrap(),
        vec![0x92, 0xc0, 0xc3]
    );
    assert_eq!(
        encode(&Value::Object(vec![(String::from("a"), Value::UInt(1))])).unwrap(),
        vec![0x81, 0xa1, b'a', 0x01]
    );
}

#[test]
fn encoding_agrees_with_rmp_serde() {
    for v in sample_values() {
        let text = match to_json(&v) {
            Ok(text) => text,
            Err(_) => unreachable!(),
        };
        let theirs: serde_json::Value = serde_json::from_str(&text).unwrap();
        assert_eq!(encode(&v).unwrap(), rmp_serde::to_vec(&theirs).unwrap());
        assert_eq!(text, serde_json::to_string_pretty(&theirs).unwrap());
    }
}

#[test]
fn parsing_inverts_printing() {
    for v in sample_values() {
        let text = to_json(&v).unwrap();
        assert_eq!(from_json(&text).unwrap(), v);
    }
}

#[test]
fn big_integers_keep_every_digit() {
    for n in [9007199254740993u64, 9007199254740992, 18446744073709551615, 10000000000000000001] {
        let text = n.to_string();
        assert_eq!(from_json(&text).unwrap(), Value::UInt(n));
        assert_eq!(to_json(&Value::UInt(n)).unwrap(), text);
    }
    assert_eq!(from_json("-9223372036854775808").unwrap(), Value::Int(i64::MIN));
    assert_eq!(to_json(&Value::Int(i64::MIN)).unwrap(), "-9223372036854775808");
    // beyond 64 bits a number is a float, as serde_json has it
    assert_eq!(
        from_json("18446744073709551616").unwrap(),
        Value::Float(18446744073709551616f64.to_bits())
    );
    assert_eq!(
        from_json("-9223372036854775809").unwrap(),
        Value::Float((-9223372036854775809f64).to_bits())
    );
    assert_eq!(from_json("-0").unwrap(), Value::Float((-0.0f64).to_bits()));
    assert_eq!(from_json("0").unwrap(), Value::UInt(0));
    assert_eq!(from_json("1E2").unwrap(), Value::Float(100f64.to_bits()));
    assert_eq!(from_json("0.1").unwrap(), Value::Float(0.1f64.to_bits()));
}

#[test]
fn parser_reads_strings_with_escapes() {
    assert_eq!(
        from_json(r#""a\"b\\c\/d\b\f\n\r\t\u0041\u00e9\ud83d\ude00""#).unwrap(),
        Value::Str(String::from("a\"b\\c/d\u{8}\u{c}\n\r\tA\u{e9}\u{1f600}"))
    );
    assert_eq!(from_json("\"\u{e9}\"").unwrap(), Value::Str(String::from("\u{e9}")));
    for bad in [
        "\"", "\"abc", "\"\\x\"", "\"\\u12\"", "\"\\u12g4\"", "\"\\ud800\"", "\"\\ud800\\u0041\"",
        "\"\\udc00\"", "\"\t\"", "'a'",
    ] {
        assert_eq!(from_json(bad), Err(ConvertError::JsonParse), "for {}", bad);
    }
}

#[test]
fn parser_keeps_the_order_of_entries_and_the_last_of_equal_keys() {
    assert_eq!(
        from_json(r#" { "b" : 1 , "a" : [ ] , "b" : { } } "#).unwrap(),
        Value::Object(vec![
            (String::from("b"), Value::Object(vec![])),
            (String::from("a"), Value::Array(vec![])),
        ])
    );
}

#[test]
fn parser_refuses_what_is_no_json() {
    for bad in [
        "", " ", "nul", "tru", "fals", "nulll", "[", "]", "[1", "[1 2]", "[,1]", "{", "{\"a\"}",
        "{\"a\":}", "{\"a\":1,}", "{a:1}", "{1:1}", "-", "+1", ".5", "1.", "1.e1", "1e", "1e+",
        "00", "-01", "0x10", "1,", "\u{a0}1", "NaN", "Infinity",
    ] {
        assert_eq!(from_json(bad), Err(ConvertError::JsonParse), "for {:?}", bad);
    }
}

#[test]
fn parser_agrees_with_serde_json_on_acceptance() {
    let texts = [
        "0", "-0", "1", "-1", "0.0", "1e5", "1E-5", "1.5e+3", "[]", "{}", "[[]]", " [ 1 , 2 ] ",
        "\"\"", "null", "true", "false", "{\"\":null}", "\n\t\r 7 \n", "1e400", "01", "[1,]",
        "\"\\u0000\"", "\"\\uDBFF\\uDFFF\"", "\"\\uDFFF\"", "{\"a\":1 \"b\":2}", "[1 ,2, 3 ]x",
        "123456789012345678901234567890", "-123456789012345678901234567890", "0e0", "-0.0e-0",
    ];
    for text in texts {
        let theirs: Result<serde_json::Value, _> = serde_json::from_str(text);
        let ours = from_json(text);
        assert_eq!(ours.is_ok(), theirs.is_ok(), "for {:?}", text);
        if let (Ok(v), Ok(t)) = (ours, theirs) {
            assert_eq!(to_json(&v).unwrap(), serde_json::to_string_pretty(&t).unwrap());
        }
    }
}

#[test]
fn to_json_refuses_what_nests_too_deep() {
    let mut v = Value::Null;
    for _ in 0..128 {
        v = Value::Array(vec![v]);
    }
    assert!(to_json(&v).is_ok());
    v = Value::Array(vec![v]);
    assert_eq!(to_json(&v), Err(ConvertError::JsonSerialize));
}

#[test]
fn white_space_is_what_unicode_says() {
    for code in 0..=0x10_ffffu32 {
        if let Some(c) = char::from_u32(code) {
            assert_eq!(is_space(c), c.is_whitespace(), "for {:#x}", code);
        }
    }
}

#[test]
fn chars_and_text_convert_both_ways() {
    let s = "a\u{e9}\u{1f600}\n";
    let chars = to_chars(s);
    assert_eq!(chars, vec!['a', '\u{e9}', '\u{1f600}', '\n']);
    assert_eq!(to_text(&chars), s);
}

struct Lcg(u64);

impl Lcg {
    fn next(&mut self) -> u64 {
        self.0 = self.0.wrapping_mul(6364136223846793005).wrapping_add(1442695040888963407);
        self.0 >> 11
    }

    fn below(&mut self, n: u64) -> u64 {
        self.next() % n
    }
}

fn random_text(rng: &mut Lcg) -> String {
    let pool = [
        'a', 'Z', '0', ' ', ',', ':', '"', '\\', '/', '\n', '\t', '\u{0}', '\u{1f}', '\u{7f}', '{',
        ']', '\u{e9}', '\u{3000}', '\u{1f600}', '\u{ffff}',
    ];
    let len = rng.below(6);
    (0..len).map(|_| pool[rng.below(pool.len() as u64) as usize]).collect()
}

fn random_value(rng: &mut Lcg, depth: u32) -> Value {
    let kinds = if depth == 0 { 6 } else { 8 };
    match rng.below(kinds) {
        0 => Value::Null,
        1 => Value::Bool(rng.below(2) == 0),
        2 => {
            let shift = rng.below(64);
            Value::UInt(rng.next().wrapping_mul(0x1_0001) >> shift)
        }
        3 => {
            let shift = rng.below(63);
            Value::Int(-1 - ((rng.next().wrapping_mul(0x1_0001) >> 1 >> shift) as i64))
        }
        4 => loop {
            let bits = rng.next().wrapping_mul(0x10_0001);
            if f64::from_bits(bits).is_finite() {
                break Value::Float(bits);
            }
        },
        5 => Value::Str(random_text(rng)),
        6 => {
            let len = rng.below(4);
            Value::Array((0..len).map(|_| random_value(rng, depth - 1)).collect())
        }
        _ => {
            let len = rng.below(4);
            let mut entries: Vec<(String, Value)> = Vec::new();
            for _ in 0..len {
                let key = random_text(rng);
                if entries.iter().all(|(k, _)| *k != key) {
                    entries.push((key, random_value(rng, depth - 1)));
                }
            }
            Value::Object(entries)
        }
    }
}

#[test]
fn random_documents_agree_with_serde() {
    let mut rng = Lcg(0x5eed);
    for _ in 0..3000 {
        let v = random_value(&mut rng, 4);
        let text = to_json(&v).unwrap();
        let bytes = encode(&v).unwrap();
        let theirs: serde_json::Value = serde_json::from_str(&text).unwrap();
        assert_eq!(text, serde_json::to_string_pretty(&theirs).unwrap());
        assert_eq!(bytes, rmp_serde::to_vec(&theirs).unwrap());
        assert_eq!(from_json(&text).unwrap(), v);
        assert_eq!(from_json(&serde_json::to_string(&theirs).unwrap()).unwrap(), v);
        let (back, end) = parse_msgpack_value(&bytes, 0).unwrap();
        assert_eq!(end, bytes.len());
        assert_eq!(back, v);
    }
}

#[test]
fn random_bytes_never_break_the_decoder() {
    let mut rng = Lcg(0xbad5eed);
    for _ in 0..20000 {
        let len = rng.below(24) as usize;
        let bytes: Vec<u8> = (0..len).map(|_| rng.next() as u8).collect();
        match parse_msgpack_value(&bytes, 0) {
            Ok((v, end)) => {
                assert!(0 < end && end <= bytes.len());
                // what was decoded can be printed, read back and encoded again
                let text = to_json(&v).unwrap();
                assert_eq!(from_json(&text).unwrap(), v);
                let again = encode(&v).unwrap();
                assert_eq!(parse_msgpack_value(&again, 0).unwrap(), (v, again.len()));
            }
            Err(e) => assert!(matches!(
                e,
                UnpackError::TruncatedData | UnpackError::UnknownFormatByte
            )),
        }
    }
}
