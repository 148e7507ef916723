use hsr_frontend::protobuf::{
    advance, base64_encode, decode_raw_protobuf, find_protobuf_field_number, packet_head_pid,
    raw_protobuf_json, raw_protobuf_tokens, read_len_delimited, read_varint, skip_wire_value, RawToken,
    RawValue, decode_raw_value,
};

#[test]
fn varint_reads_and_advances() {
    let bytes = [0xac, 0x02, 0x05];
    let mut cursor = 0usize;
    assert_eq!(read_varint(&bytes, &mut cursor), Some(300));
    assert_eq!(cursor, 2);
    assert_eq!(read_varint(&bytes, &mut cursor), Some(5));
    assert_eq!(cursor, 3);
    let mut cursor = 0usize;
    assert_eq!(read_varint(&[0x80], &mut cursor), None);
}

#[test]
fn advance_checks_bounds() {
    let mut cursor = 2usize;
    assert!(advance(&mut cursor, 5, 3));
    assert_eq!(cursor, 5);
    assert!(!advance(&mut cursor, 5, 1));
    assert_eq!(cursor, 5);
    let mut cursor = usize::MAX;
    assert!(!advance(&mut cursor, 5, 1));
}

#[test]
fn len_delimited_and_skips() {
    let bytes = [0x03, b'a', b'b', b'c', 0x01];
    let mut cursor = 0usize;
    assert_eq!(read_len_delimited(&bytes, &mut cursor), Some(&b"abc"[..]));
    assert_eq!(cursor, 4);
    let mut cursor = 0usize;
    assert_eq!(read_len_delimited(&[0x05, 1, 2], &mut cursor), None);
    let mut cursor = 0usize;
    assert!(skip_wire_value(&[1, 2, 3, 4], &mut cursor, 5));
    assert_eq!(cursor, 4);
    let mut cursor = 0usize;
    assert!(!skip_wire_value(&[1, 2, 3], &mut cursor, 1));
    let mut cursor = 0usize;
    assert!(!skip_wire_value(&[1, 2, 3], &mut cursor, 3));
}

#[test]
fn head_pid_scenarios() {
    assert_eq!(packet_head_pid(&[0x08, 0x96, 0x01]), 150);
    assert_eq!(packet_head_pid(&[0x10, 0x05]), 0);
    assert_eq!(packet_head_pid(&[0x10, 0x05, 0x08, 0x07]), 7);
    assert_eq!(packet_head_pid(&[0x1a, 0x02, 0x08, 0x07]), 7);
    assert_eq!(packet_head_pid(&[0x0a, 0x04, b' ', b'4', b'2', b' ']), 42);
    assert_eq!(packet_head_pid(&[0x0d, 0x01, 0x00, 0x00, 0x00]), 1);
    assert_eq!(packet_head_pid(&[0x09, 0x02, 0, 0, 0, 0, 0, 0, 0]), 2);
    assert_eq!(packet_head_pid(&[0x0b]), 0);
    assert_eq!(packet_head_pid(&[]), 0);
}

#[test]
fn find_field_depth_limit() {
    assert_eq!(find_protobuf_field_number(&[0x08, 0x07], 1, 4), None);
    assert_eq!(find_protobuf_field_number(&[0x08, 0x07], 1, 3), Some(7));
}

#[test]
fn base64_of_bytes() {
    assert_eq!(base64_encode(b"hello"), "aGVsbG8=");
    assert_eq!(base64_encode(&[]), "");
    assert_eq!(base64_encode(&[0xff]), "/w==");
}

#[test]
fn raw_tokens_of_a_message() {
    assert_eq!(raw_protobuf_tokens(&[0x08, 0x01]), vec![RawToken::Field(1), RawToken::Varint(1)]);
    assert_eq!(
        raw_protobuf_tokens(&[0x1a, 0x02, 0x08, 0x07]),
        vec![
            RawToken::Field(3),
            RawToken::Open,
            RawToken::Field(1),
            RawToken::Varint(7),
            RawToken::Close
        ]
    );
    assert_eq!(
        raw_protobuf_tokens(&[0x12, 0x01, 0x41]),
        vec![RawToken::Field(2), RawToken::Text("A".to_string())]
    );
    assert_eq!(
        raw_protobuf_tokens(&[0x12, 0x01, 0xff]),
        vec![RawToken::Field(2), RawToken::Base64("/w==".to_string())]
    );
    assert_eq!(
        raw_protobuf_tokens(&[0x15, 0x2a, 0, 0, 0]),
        vec![RawToken::Field(2), RawToken::Fixed32(42)]
    );
    assert_eq!(raw_protobuf_tokens(&[0x0b]), Vec::<RawToken>::new());
    assert_eq!(decode_raw_protobuf(&[0x08, 0x01], 5), None);
    assert_eq!(decode_raw_protobuf(&[], 0), Some(vec![]));
}

#[test]
fn utf8_fields_decode_as_text() {
    let word = "héllo".as_bytes();
    let mut msg = vec![0x0a, word.len() as u8];
    msg.extend_from_slice(word);
    assert_eq!(
        raw_protobuf_tokens(&msg),
        vec![RawToken::Field(1), RawToken::Text("héllo".to_string())]
    );
    assert_eq!(
        raw_protobuf_tokens(&[0x0a, 0x02, 0xff, 0xfe]),
        vec![RawToken::Field(1), RawToken::Base64("//4=".to_string())]
    );
}

#[test]
fn repeated_fields_are_grouped() {
    // field 1 = 5, field 2 = 6, field 1 = 7, field 1 = 8
    assert_eq!(
        raw_protobuf_tokens(&[0x08, 0x05, 0x10, 0x06, 0x08, 0x07, 0x08, 0x08]),
        vec![
            RawToken::Field(1),
            RawToken::ArrayOpen,
            RawToken::Varint(5),
            RawToken::Varint(7),
            RawToken::Varint(8),
            RawToken::ArrayClose,
            RawToken::Field(2),
            RawToken::Varint(6),
        ]
    );
    // field 3 holds { field 1 = 1, field 1 = 2 } twice over
    assert_eq!(
        raw_protobuf_tokens(&[0x1a, 0x04, 0x08, 0x01, 0x08, 0x02, 0x1a, 0x02, 0x08, 0x03]),
        vec![
            RawToken::Field(3),
            RawToken::ArrayOpen,
            RawToken::Open,
            RawToken::Field(1),
            RawToken::ArrayOpen,
            RawToken::Varint(1),
            RawToken::Varint(2),
            RawToken::ArrayClose,
            RawToken::Close,
            RawToken::Open,
            RawToken::Field(1),
            RawToken::Varint(3),
            RawToken::Close,
            RawToken::ArrayClose,
        ]
    );
}

#[test]
fn raw_heads_as_json() {
    // field 1 = 5, field 2 = "A", field 1 = 7, field 3 = { field 1 = 1 }
    let head = [0x08, 0x05, 0x12, 0x01, 0x41, 0x08, 0x07, 0x1a, 0x02, 0x08, 0x01];
    assert_eq!(
        raw_protobuf_json(&head),
        "{\n  \"1\": [\n    5,\n    7\n  ],\n  \"2\": \"A\",\n  \"3\": {\n    \"1\": 1\n  }\n}"
    );
    assert_eq!(raw_protobuf_json(&[0x0b]), "{}");
    assert_eq!(raw_protobuf_json(&[]), "{}");
    assert_eq!(raw_protobuf_json(&[0x12, 0x01, 0xff]), "{\n  \"2\": \"/w==\"\n}");
}

#[test]
fn raw_trees() {
    let fields = decode_raw_value(&[0x08, 0x05, 0x12, 0x01, 0x41], 0).unwrap();
    assert_eq!(fields.len(), 2);
    assert!(matches!(fields[0], (1, RawValue::Number(5))));
    assert!(matches!(&fields[1], (2, RawValue::Text(t)) if t == "A"));
    assert!(decode_raw_value(&[0x08, 0x05], 5).is_none());
    assert!(decode_raw_value(&[0x08], 0).is_none());
    assert_eq!(decode_raw_protobuf(&[0x08, 0x05], 9), None);
}

#[test]
fn failed_varint_reads_leave_the_cursor_past_what_was_read() {
    let mut cursor = 1;
    assert_eq!(read_varint(&[0x00, 0x80, 0x80], &mut cursor), None);
    assert_eq!(cursor, 3);
    let long = [0xffu8; 12];
    let mut cursor = 0;
    assert_eq!(read_varint(&long, &mut cursor), None);
    assert_eq!(cursor, 10);
    let mut cursor = 7;
    assert_eq!(read_varint(&[0x01], &mut cursor), None);
    assert_eq!(cursor, 7);
}

#[test]
fn a_leading_field_one_is_the_packet_id() {
    assert_eq!(packet_head_pid(&[0x08, 0x96, 0x01, 0x10, 0x05]), 150);
    let mut head = vec![0x08];
    head.extend_from_slice(&[0xff, 0xff, 0xff, 0xff, 0xff, 0xff, 0xff, 0xff, 0xff, 0x01]);
    head.extend_from_slice(&[0x12, 0x00]);
    assert_eq!(packet_head_pid(&head), u64::MAX);
    assert_eq!(packet_head_pid(&[0x08, 0x00]), 0);
}
