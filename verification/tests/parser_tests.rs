use protobuf_to_json::{BytesEncoding, FieldValue, JsonValue, Parser, WireType};

fn obj(entries: Vec<(u64, JsonValue)>) -> JsonValue {
    JsonValue::Object(entries)
}

fn s(text: &str) -> JsonValue {
    JsonValue::String(String::from(text))
}

#[test]
fn test_parse_1() {
    let data = vec![
        0x0d, 0x1c, 0x00, 0x00, 0x00, 0x12, 0x03, 0x59, 0x6f, 0x75, 0x1a, 0x02, 0x4d, 0x65, 0x20,
        0x2b, 0x2a, 0x0a, 0x0a, 0x06, 0x61, 0x62, 0x63, 0x31, 0x32, 0x33, 0x12, 0x00,
    ];
    let parser = Parser::new();
    let json = parser.parse(&data).unwrap();
    let expected = obj(vec![
        (1, JsonValue::Number(28)),
        (2, s("You")),
        (3, s("Me")),
        (4, JsonValue::Number(43)),
        (5, obj(vec![(1, s("abc123")), (2, s(""))])),
    ]);
    assert_eq!(json, expected);
}

#[test]
fn test_parse_2() {
    let data = vec![
        0x0d, 0x1c, 0x00, 0x00, 0x00, 0x12, 0x03, 0x59, 0x6f, 0x75, 0x1a, 0x02, 0x4d, 0x65, 0x20,
        0x2b, 0x2a, 0x0a, 0x0a, 0x06, 0x61, 0x62, 0x63, 0x31, 0x32, 0x33, 0x12, 0x00, 0x31, 0xba,
        0x32, 0xa9, 0x6c, 0xc1, 0x02, 0x00, 0x00, 0x38, 0x01,
    ];
    let parser = Parser::new();
    let json = parser.parse(&data).unwrap();
    let expected = obj(vec![
        (1, JsonValue::Number(28)),
        (2, s("You")),
        (3, s("Me")),
        (4, JsonValue::Number(43)),
        (5, obj(vec![(1, s("abc123")), (2, s(""))])),
        (6, JsonValue::Number(3029774971578)),
        (7, JsonValue::Number(1)),
    ]);
    assert_eq!(json, expected);
}

#[test]
fn test_parse_3() {
    let data = vec![
        0x0a, 0x0a, 0x61, 0x73, 0x63, 0x6f, 0x6e, 0x2d, 0x66, 0x75, 0x6c, 0x6c, 0x12, 0x0a, 0x61,
        0x73, 0x63, 0x6f, 0x6e, 0x2d, 0x66, 0x75, 0x6c, 0x6c, 0x1a, 0x1b, 0x32, 0x30, 0x32, 0x35,
        0x2d, 0x30, 0x39, 0x2d, 0x30, 0x32, 0x54, 0x30, 0x39, 0x3a, 0x33, 0x37, 0x3a, 0x32, 0x36,
        0x2e, 0x30, 0x33, 0x39, 0x30, 0x32, 0x38, 0x5a, 0x22, 0x03, 0x30, 0x2e, 0x31, 0x2a, 0x04,
        0x74, 0x65, 0x73, 0x74, 0x42, 0x1b, 0x32, 0x30, 0x32, 0x35, 0x2d, 0x30, 0x39, 0x2d, 0x30,
        0x32, 0x54, 0x30, 0x39, 0x3a, 0x33, 0x37, 0x3a, 0x32, 0x36, 0x2e, 0x30, 0x33, 0x39, 0x30,
        0x32, 0x38, 0x5a, 0x48, 0x00, 0x68, 0x00, 0x72, 0x05, 0x30, 0x2e, 0x31, 0x2e, 0x30, 0x8a,
        0x01, 0x6e, 0x46, 0x75, 0x6c, 0x6c, 0x20, 0x41, 0x73, 0x63, 0x6f, 0x6e, 0x20, 0x69, 0x6d,
        0x70, 0x6c, 0x65, 0x6d, 0x65, 0x6e, 0x74, 0x61, 0x74, 0x69, 0x6f, 0x6e, 0x20, 0x28, 0x68,
        0x61, 0x73, 0x68, 0xe2, 0x80, 0x91, 0x32, 0x35, 0x36, 0x2c, 0x20, 0x41, 0x45, 0x41, 0x44,
        0xe2, 0x80, 0x91, 0x31, 0x32, 0x38, 0x20, 0x77, 0x69, 0x74, 0x68, 0x20, 0x6e, 0x6f, 0x6e,
        0x63, 0x65, 0x20, 0x6d, 0x61, 0x73, 0x6b, 0x69, 0x6e, 0x67, 0x20, 0x26, 0x20, 0x74, 0x61,
        0x67, 0x20, 0x74, 0x72, 0x75, 0x6e, 0x63, 0x61, 0x74, 0x69, 0x6f, 0x6e, 0x2c, 0x20, 0x58,
        0x4f, 0x46, 0xe2, 0x80, 0x91, 0x31, 0x32, 0x38, 0x2c, 0x20, 0x43, 0x58, 0x4f, 0x46, 0xe2,
        0x80, 0x91, 0x31, 0x32, 0x38, 0x29, 0x2e, 0x92, 0x01, 0x23, 0x68, 0x74, 0x74, 0x70, 0x73,
        0x3a, 0x2f, 0x2f, 0x67, 0x69, 0x74, 0x68, 0x75, 0x62, 0x2e, 0x63, 0x6f, 0x6d, 0x2f, 0x6a,
        0x6a, 0x6b, 0x75, 0x6d, 0x2f, 0x61, 0x73, 0x63, 0x6f, 0x6e, 0x2d, 0x66, 0x75, 0x6c, 0x6c,
        0x9a, 0x01, 0x1a, 0x68, 0x74, 0x74, 0x70, 0x73, 0x3a, 0x2f, 0x2f, 0x64, 0x6f, 0x63, 0x73,
        0x2e, 0x72, 0x73, 0x2f, 0x61, 0x73, 0x63, 0x6f, 0x6e, 0x2d, 0x66, 0x75, 0x6c, 0x6c, 0xa2,
        0x01, 0x23, 0x68, 0x74, 0x74, 0x70, 0x73, 0x3a, 0x2f, 0x2f, 0x67, 0x69, 0x74, 0x68, 0x75,
        0x62, 0x2e, 0x63, 0x6f, 0x6d, 0x2f, 0x6a, 0x6a, 0x6b, 0x75, 0x6d, 0x2f, 0x61, 0x73, 0x63,
        0x6f, 0x6e, 0x2d, 0x66, 0x75, 0x6c, 0x6c, 0xaa, 0x01, 0x46, 0x12, 0x22, 0x2f, 0x61, 0x70,
        0x69, 0x2f, 0x76, 0x31, 0x2f, 0x63, 0x72, 0x61, 0x74, 0x65, 0x73, 0x2f, 0x61, 0x73, 0x63,
        0x6f, 0x6e, 0x2d, 0x66, 0x75, 0x6c, 0x6c, 0x2f, 0x76, 0x65, 0x72, 0x73, 0x69, 0x6f, 0x6e,
        0x73, 0x1a, 0x20, 0x2f, 0x61, 0x70, 0x69, 0x2f, 0x76, 0x31, 0x2f, 0x63, 0x72, 0x61, 0x74,
        0x65, 0x73, 0x2f, 0x61, 0x73, 0x63, 0x6f, 0x6e, 0x2d, 0x66, 0x75, 0x6c, 0x6c, 0x2f, 0x6f,
        0x77, 0x6e, 0x65, 0x72, 0x73,
    ];
    let parser = Parser::new();
    let json = parser.parse(&data).unwrap();
    let expected = obj(vec![
        (1, s("ascon-full")),
        (2, s("ascon-full")),
        (3, s("2025-09-02T09:37:26.039028Z")),
        (4, s("0.1")),
        (5, s("test")),
        (8, s("2025-09-02T09:37:26.039028Z")),
        (9, JsonValue::Number(0)),
        (13, JsonValue::Number(0)),
        (14, s("0.1.0")),
        (
            17,
            s("Full Ascon implementation (hash\u{2011}256, AEAD\u{2011}128 with nonce masking & tag truncation, XOF\u{2011}128, CXOF\u{2011}128)."),
        ),
        (18, s("https://github.com/jjkum/ascon-full")),
        (19, s("https://docs.rs/ascon-full")),
        (20, s("https://github.com/jjkum/ascon-full")),
        (
            21,
            obj(vec![
                (2, s("/api/v1/crates/ascon-full/versions")),
                (3, s("/api/v1/crates/ascon-full/owners")),
            ]),
        ),
    ]);
    assert_eq!(json, expected);
}

#[test]
fn test_parse_encoding_bytearray() {
    let data = vec![0x4a, 0x05, 0x00, 0x01, 0x02, 0x03, 0x04];
    let parser = Parser::with_bytes_encoding(BytesEncoding::ByteArray);
    let json = parser.parse(&data).unwrap();
    let expected = obj(vec![(
        9,
        JsonValue::Array(vec![
            JsonValue::Number(0),
            JsonValue::Number(1),
            JsonValue::Number(2),
            JsonValue::Number(3),
            JsonValue::Number(4),
        ]),
    )]);
    assert_eq!(json, expected);
}

#[test]
fn test_parse_num_array() {
    let data = vec![0x4a, 0x05, 0x00, 0x01, 0x02, 0x03, 0x04];
    let parser = Parser::new();
    let json = parser.parse(&data).unwrap();
    let expected = obj(vec![(9, s("\u{0000}\u{0001}\u{0002}\u{0003}\u{0004}"))]);
    assert_eq!(json, expected);
}

#[test]
fn test_parse_empty_input() {
    let data: Vec<u8> = vec![];
    let parser = Parser::new();
    assert!(parser.parse(&data).is_none());
}

#[test]
fn test_parse_twice_identical() {
    let data = vec![
        0x0d, 0x1c, 0x00, 0x00, 0x00, 0x12, 0x03, 0x59, 0x6f, 0x75, 0x1a, 0x02, 0x4d, 0x65, 0x20,
        0x2b, 0x2a, 0x0a, 0x0a, 0x06, 0x61, 0x62, 0x63, 0x31, 0x32, 0x33, 0x12, 0x00,
    ];
    let parser = Parser::new();
    let first = parser.parse(&data).unwrap();
    let second = parser.parse(&data).unwrap();
    assert_eq!(first, second);
}

#[test]
fn test_repeated_field_grouped_into_array() {
    // field 1 varint 7, field 1 varint 9: seen twice, so the key holds
    // [7, 9] in encounter order; field 2, seen once, stays a scalar.
    let data = vec![0x08, 0x07, 0x08, 0x09, 0x10, 0x05];
    let parser = Parser::new();
    let json = parser.parse(&data).unwrap();
    let expected = obj(vec![
        (
            1,
            JsonValue::Array(vec![JsonValue::Number(7), JsonValue::Number(9)]),
        ),
        (2, JsonValue::Number(5)),
    ]);
    assert_eq!(json, expected);
}

#[test]
fn test_repeated_field_three_times() {
    let data = vec![0x08, 0x01, 0x08, 0x02, 0x08, 0x03];
    let parser = Parser::new();
    let json = parser.parse(&data).unwrap();
    let expected = obj(vec![(
        1,
        JsonValue::Array(vec![
            JsonValue::Number(1),
            JsonValue::Number(2),
            JsonValue::Number(3),
        ]),
    )]);
    assert_eq!(json, expected);
}

#[test]
fn test_printable_text_never_becomes_nested_object() {
    // The payload "(a" would decode as a message (field 5, varint 97), but
    // it is printable UTF-8, so the tie-break keeps it a string.
    let data = vec![0x12, 0x02, 0x28, 0x61];
    let parser = Parser::new();
    let json = parser.parse(&data).unwrap();
    let expected = obj(vec![(2, s("(a"))]);
    assert_eq!(json, expected);
}

#[test]
fn test_auto_encoding_uses_base64_for_invalid_utf8() {
    let data = vec![0x4a, 0x03, 0xff, 0xfe, 0xfd];
    let parser = Parser::new();
    let json = parser.parse(&data).unwrap();
    let expected = obj(vec![(9, s("//79"))]);
    assert_eq!(json, expected);
}

#[test]
fn test_base64_encoding() {
    let data = vec![0x4a, 0x05, 0x00, 0x01, 0x02, 0x03, 0x04];
    let parser = Parser::with_bytes_encoding(BytesEncoding::Base64);
    let json = parser.parse(&data).unwrap();
    let expected = obj(vec![(9, s("AAECAwQ="))]);
    assert_eq!(json, expected);
}

#[test]
fn test_stfu8_encoding() {
    let data = vec![0x4a, 0x05, 0x00, 0x01, 0x02, 0x03, 0x04];
    let parser = Parser::with_bytes_encoding(BytesEncoding::Stfu8);
    let json = parser.parse(&data).unwrap();
    let expected = obj(vec![(9, s("\\x00\\x01\\x02\\x03\\x04"))]);
    assert_eq!(json, expected);
}

#[test]
fn test_string_lossy_encoding() {
    let data = vec![0x4a, 0x03, 0xff, 0x41, 0x42];
    let parser = Parser::with_bytes_encoding(BytesEncoding::StringLossy);
    let json = parser.parse(&data).unwrap();
    let expected = obj(vec![(9, s("\u{fffd}AB"))]);
    assert_eq!(json, expected);
}

#[test]
fn test_parse_once_accounts_for_garbage() {
    // 0x08 0x01 decodes as field 1, varint 1; the lone continuation byte
    // cannot start a tag, so the rest of the buffer becomes garbage.
    let data = vec![0x08, 0x01, 0x80];
    let parser = Parser::new();
    let msg = parser.parse_once(&data);
    assert_eq!(msg.fields.len(), 1);
    assert_eq!(msg.fields[0].number, 1);
    assert!(matches!(msg.fields[0].value, FieldValue::Varint(1)));
    assert_eq!(msg.garbage, Some(2));
}

#[test]
fn test_parse_once_incomplete_value() {
    // Field 1 claims wire type fixed64 but only one byte follows.
    let data = vec![0x09, 0x01];
    let parser = Parser::new();
    let msg = parser.parse_once(&data);
    assert_eq!(msg.fields.len(), 1);
    assert!(matches!(
        msg.fields[0].value,
        FieldValue::Incomplete(WireType::Fixed64, 1)
    ));
    assert_eq!(msg.garbage, None);
}

#[test]
fn test_parse_once_invalid_wire_type() {
    // Tag 0x0b is field 1 with wire type 3, which is not recognized; the
    // remaining bytes are consumed by the invalid value.
    let data = vec![0x0b, 0x41, 0x42];
    let parser = Parser::new();
    let msg = parser.parse_once(&data);
    assert_eq!(msg.fields.len(), 1);
    assert!(matches!(msg.fields[0].value, FieldValue::Invalid(3, 1)));
    assert_eq!(msg.garbage, None);
}

#[test]
fn test_top_level_stops_at_invalid_field() {
    // The top level keeps what was decoded before the invalid field.
    let data = vec![0x08, 0x01, 0x0b, 0x41, 0x42];
    let parser = Parser::new();
    let json = parser.parse(&data).unwrap();
    let expected = obj(vec![(1, JsonValue::Number(1))]);
    assert_eq!(json, expected);
}

#[test]
fn test_fixed32_field() {
    let data = vec![0x15, 0x2a, 0x00, 0x00, 0x00];
    let parser = Parser::new();
    let json = parser.parse(&data).unwrap();
    let expected = obj(vec![(2, JsonValue::Number(42))]);
    assert_eq!(json, expected);
}

#[test]
fn test_wire_type_from_codes() {
    assert_eq!(WireType::from(0), WireType::Varint);
    assert_eq!(WireType::from(1), WireType::Fixed64);
    assert_eq!(WireType::from(2), WireType::LengthDelimited);
    assert_eq!(WireType::from(5), WireType::Fixed32);
    assert_eq!(WireType::from(3), WireType::Invalid(3));
    assert_eq!(WireType::from(7), WireType::Invalid(7));
}

#[test]
fn test_garbage_only_buffer_rejected() {
    // A lone continuation byte yields no fields, so the projector rejects.
    let data = vec![0x80];
    let parser = Parser::new();
    assert!(parser.parse(&data).is_none());
}

#[test]
fn test_parse_once_truncated_length_delimited() {
    // Field 1 claims a 3-byte payload but only one byte follows the length.
    let data = vec![0x0a, 0x03, 0x41];
    let parser = Parser::new();
    let msg = parser.parse_once(&data);
    assert_eq!(msg.fields.len(), 1);
    assert!(matches!(
        msg.fields[0].value,
        FieldValue::Incomplete(WireType::LengthDelimited, 2)
    ));
    assert_eq!(msg.garbage, None);
}

#[test]
fn test_parse_once_truncated_varint_value() {
    // The tag decodes, but the varint value never terminates.
    let data = vec![0x08, 0x80];
    let parser = Parser::new();
    let msg = parser.parse_once(&data);
    assert_eq!(msg.fields.len(), 1);
    assert!(matches!(
        msg.fields[0].value,
        FieldValue::Incomplete(WireType::Varint, 1)
    ));
}

#[test]
fn test_nested_invalid_field_falls_back_to_leaf() {
    // The payload starts with an invalid wire type, so the nested attempt
    // aborts and the bytes are kept as an opaque leaf.
    let data = vec![0x12, 0x03, 0x0b, 0xff, 0xfe];
    let parser = Parser::with_bytes_encoding(BytesEncoding::ByteArray);
    let json = parser.parse(&data).unwrap();
    let expected = obj(vec![(
        2,
        JsonValue::Array(vec![
            JsonValue::Number(0x0b),
            JsonValue::Number(0xff),
            JsonValue::Number(0xfe),
        ]),
    )]);
    assert_eq!(json, expected);
}

#[test]
fn test_default_parser_uses_auto() {
    let parser = Parser::default();
    assert_eq!(parser.bytes_encoding, BytesEncoding::Auto);
    assert_eq!(Parser::new(), parser);
}
