use hsr_frontend::sniff_file::{
    deserialize_packets, generate_key, hex_to_key, key_to_hex, serialize_packets,
    suggested_filename, DecodedPacket, FormatProblem, PacketSource, SniffFileError, KEY_SIZE,
};

fn packet(id: u64, cmd_id: u32, source: PacketSource, head: Vec<u8>, body: Vec<u8>) -> DecodedPacket {
    DecodedPacket {
        id,
        cmd_id,
        source,
        name: Some("Named".to_string()),
        head,
        body,
        body_json: Some("{}".to_string()),
        request_id: Some(9),
        custom_packet: true,
    }
}

#[test]
fn serialize_layout() {
    let bytes = serialize_packets(&[packet(5, 0x0102, PacketSource::Server, vec![0xaa], vec![1, 2])]);
    assert_eq!(
        bytes,
        vec![
            b'1', b'3', b'3', b'7', 0, 0, 0, 1, 1, 0, 0, 0x01, 0x02, 0, 0, 0, 1, 0, 0, 0, 2, 0xaa, 1,
            2
        ]
    );
    assert_eq!(serialize_packets(&[]), b"1337\0\0\0\0".to_vec());
}

#[test]
fn capture_roundtrip_renumbers_and_clears() {
    let packets = vec![
        packet(40, 7, PacketSource::Client, vec![0x08, 0x01], vec![]),
        packet(41, 8, PacketSource::Server, vec![], vec![9, 9, 9]),
    ];
    let back = deserialize_packets(&serialize_packets(&packets)).unwrap();
    assert_eq!(back.len(), 2);
    for (i, (a, b)) in packets.iter().zip(back.iter()).enumerate() {
        assert_eq!(b.id, i as u64 + 1);
        assert_eq!(b.cmd_id, a.cmd_id);
        assert_eq!(b.source, a.source);
        assert_eq!(b.head, a.head);
        assert_eq!(b.body, a.body);
        assert_eq!(b.name, None);
        assert_eq!(b.body_json, None);
        assert_eq!(b.request_id, None);
        assert!(!b.custom_packet);
    }
}

#[test]
fn capture_errors() {
    assert_eq!(
        deserialize_packets(b"1337").unwrap_err(),
        SniffFileError::InvalidFormat(FormatProblem::FileTooShort)
    );
    assert_eq!(
        deserialize_packets(b"1338\0\0\0\0").unwrap_err(),
        SniffFileError::InvalidFormat(FormatProblem::BadMagic)
    );
    assert_eq!(
        deserialize_packets(b"1337\0\0\0\x01").unwrap_err(),
        SniffFileError::InvalidFormat(FormatProblem::TruncatedRecord)
    );
    let mut bad_source = serialize_packets(&[packet(1, 1, PacketSource::Client, vec![], vec![])]);
    bad_source[8] = 2;
    assert_eq!(
        deserialize_packets(&bad_source).unwrap_err(),
        SniffFileError::InvalidFormat(FormatProblem::TruncatedRecord)
    );
    assert!(deserialize_packets(b"1337\0\0\0\0trailing").unwrap().is_empty());
    assert_eq!(FormatProblem::BadMagic.reason(), "bad magic");
    assert_eq!(FormatProblem::FileTooShort.reason(), "file too short");
    assert_eq!(FormatProblem::TruncatedRecord.reason(), "truncated packet record");
}

#[test]
fn key_names() {
    let key: [u8; KEY_SIZE] = [0, 1, 2, 3, 4, 5, 6, 7, 8, 9, 10, 11, 12, 13, 14, 255];
    assert_eq!(key_to_hex(&key), "000102030405060708090a0b0c0d0eff");
    assert_eq!(suggested_filename(&key), "000102030405060708090a0b0c0d0eff.sniff");
    assert_eq!(hex_to_key("000102030405060708090a0b0c0d0eff"), Some(key));
    assert_eq!(hex_to_key("000102030405060708090A0B0C0D0EFF.sniff"), Some(key));
    assert_eq!(hex_to_key("00"), None);
    assert_eq!(hex_to_key("zz0102030405060708090a0b0c0d0eff"), None);
    assert_eq!(hex_to_key("+00102030405060708090a0b0c0d0eff"), Some(key));
    assert_eq!(hex_to_key("-00102030405060708090a0b0c0d0eff"), None);
}

#[test]
fn generated_keys_name_themselves() {
    let key = generate_key().unwrap();
    assert_eq!(key.len(), KEY_SIZE);
    assert_eq!(hex_to_key(&suggested_filename(&key)), Some(key));
    let other = generate_key().unwrap();
    assert_ne!(key, other);
}

#[test]
fn upper_case_key_names_lead_back() {
    let key: [u8; 16] = [0x00, 0x1f, 0xa0, 0xff, 0x10, 0x2b, 0x3c, 0x4d, 0x5e, 0x6f, 0x70, 0x81, 0x92, 0xa3, 0xb4, 0xc5];
    assert_eq!(hex_to_key(&key_to_hex(&key).to_uppercase()), Some(key));
    assert_eq!(hex_to_key(&key_to_hex(&key)), Some(key));
}
