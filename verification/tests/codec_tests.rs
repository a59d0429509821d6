use coap_server::codec::{decode, encode, uri_path, DecodeError, MessageType, Packet};

fn base_packet() -> Packet {
    Packet {
        version: 1,
        mtype: MessageType::Confirmable,
        code: 1,
        message_id: 1,
        token: vec![0x51, 0x55, 0x77, 0xE8],
        options: vec![(11, b"test-echo".to_vec())],
        payload: vec![],
    }
}

fn assert_packets_equal(a: &Packet, b: &Packet) {
    assert_eq!(a.version, b.version);
    assert_eq!(a.mtype, b.mtype);
    assert_eq!(a.code, b.code);
    assert_eq!(a.message_id, b.message_id);
    assert_eq!(a.token, b.token);
    assert_eq!(a.options, b.options);
    assert_eq!(a.payload, b.payload);
}

#[test]
fn encode_wire_format_exact() {
    let bytes = encode(&base_packet());
    let mut expected = vec![0x44u8, 0x01, 0x00, 0x01, 0x51, 0x55, 0x77, 0xE8, 0xB9];
    expected.extend_from_slice(b"test-echo");
    assert_eq!(bytes, expected);
}

#[test]
fn round_trip_basic() {
    let p = base_packet();
    let decoded = decode(&encode(&p)).expect("well-formed packet must decode");
    assert_packets_equal(&p, &decoded);
}

#[test]
fn round_trip_extended_deltas_and_payload() {
    let p = Packet {
        version: 1,
        mtype: MessageType::NonConfirmable,
        code: 69,
        message_id: 0xBEEF,
        token: vec![1, 2, 3, 4, 5, 6, 7, 8],
        options: vec![
            (6, vec![]),
            (11, b"a".to_vec()),
            (280, vec![7u8; 300]),
            (66084, b"x".to_vec()),
        ],
        payload: b"hello".to_vec(),
    };
    let decoded = decode(&encode(&p)).expect("well-formed packet must decode");
    assert_packets_equal(&p, &decoded);
}

#[test]
fn round_trip_empty_token_and_repeated_options() {
    let p = Packet {
        version: 1,
        mtype: MessageType::Acknowledgement,
        code: 69,
        message_id: 0,
        token: vec![],
        options: vec![(11, b"a".to_vec()), (11, b"b".to_vec())],
        payload: vec![0xFF],
    };
    let decoded = decode(&encode(&p)).expect("well-formed packet must decode");
    assert_packets_equal(&p, &decoded);
}

#[test]
fn decode_rejects_truncated_header() {
    assert!(matches!(decode(&vec![0x44, 0x01, 0x00]), Err(DecodeError::Malformed)));
    assert!(matches!(decode(&vec![]), Err(DecodeError::Malformed)));
}

#[test]
fn decode_rejects_bad_version() {
    assert!(matches!(decode(&vec![0x00, 0x01, 0x00, 0x01]), Err(DecodeError::Malformed)));
    assert!(matches!(decode(&vec![0x84, 0x01, 0x00, 0x01]), Err(DecodeError::Malformed)));
}

#[test]
fn decode_rejects_long_token_length() {
    // token length nibble 9 > 8
    assert!(matches!(decode(&vec![0x49, 0x01, 0x00, 0x01]), Err(DecodeError::Malformed)));
    // token length 4 but only 2 token bytes present
    assert!(matches!(decode(&vec![0x44, 0x01, 0x00, 0x01, 0xAA, 0xBB]), Err(DecodeError::Malformed)));
}

#[test]
fn decode_rejects_marker_with_empty_payload() {
    assert!(matches!(decode(&vec![0x40, 0x01, 0x00, 0x01, 0xFF]), Err(DecodeError::Malformed)));
}

#[test]
fn decode_rejects_reserved_nibble_and_short_extension() {
    // delta nibble 15 without being a payload marker
    assert!(matches!(decode(&vec![0x40, 0x01, 0x00, 0x01, 0xF0]), Err(DecodeError::Malformed)));
    // delta nibble 13 but the extension byte is missing
    assert!(matches!(decode(&vec![0x40, 0x01, 0x00, 0x01, 0xD0]), Err(DecodeError::Malformed)));
    // option value announced longer than the datagram
    assert!(matches!(decode(&vec![0x40, 0x01, 0x00, 0x01, 0x05, 0x61]), Err(DecodeError::Malformed)));
}

#[test]
fn uri_path_joins_segments_in_order() {
    let mut p = base_packet();
    assert_eq!(uri_path(&p), b"test-echo".to_vec());
    p.options = vec![(11, b"a".to_vec()), (11, b"b".to_vec()), (11, b"c".to_vec())];
    assert_eq!(uri_path(&p), b"a/b/c".to_vec());
    p.options = vec![(6, vec![0])];
    assert_eq!(uri_path(&p), Vec::<u8>::new());
}

#[test]
fn encode_understood_by_reference_parser() {
    let bytes = encode(&base_packet());
    let parsed = coap_lite::Packet::from_bytes(&bytes).expect("reference parser accepts");
    assert_eq!(parsed.header.message_id, 1);
    assert_eq!(parsed.get_token(), &[0x51, 0x55, 0x77, 0xE8]);
    let uri = parsed.get_option(coap_lite::CoapOption::UriPath).expect("uri-path present");
    assert_eq!(uri.front().unwrap(), &b"test-echo".to_vec());
    assert!(parsed.payload.is_empty());
}

#[test]
fn reference_encoder_understood_by_decoder() {
    let mut p = coap_lite::Packet::new();
    p.header.set_version(1);
    p.header.set_type(coap_lite::MessageType::Confirmable);
    p.header.set_code("0.01");
    p.header.message_id = 7;
    p.set_token(vec![0xAB, 0xCD]);
    p.add_option(coap_lite::CoapOption::UriPath, b"test-echo".to_vec());
    p.payload = b"body".to_vec();
    let bytes = p.to_bytes().expect("reference encoder");
    let decoded = decode(&bytes).expect("decoder accepts reference bytes");
    assert_eq!(decoded.message_id, 7);
    assert_eq!(decoded.token, vec![0xAB, 0xCD]);
    assert_eq!(decoded.code, 1);
    assert_eq!(decoded.options, vec![(11, b"test-echo".to_vec())]);
    assert_eq!(decoded.payload, b"body".to_vec());
}
