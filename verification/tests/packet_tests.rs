use radius_server::packet::{ProtocolError, RadiusAttribute, RadiusPacket};

fn sample_packet() -> RadiusPacket {
    let attributes = vec![
        RadiusAttribute::user_name("alice"),
        RadiusAttribute::reply_message("hello"),
        RadiusAttribute::session_timeout(3600),
        RadiusAttribute::idle_timeout(300),
        RadiusAttribute::vendor_specific(14122, vec![7, 6, 0, 1, 2, 3]),
    ];
    RadiusPacket {
        code: 1,
        identifier: 42,
        length: 0,
        authenticator: [9u8; 16],
        attributes,
    }
}

#[test]
fn round_trip_preserves_everything() {
    let p = sample_packet();
    let bytes = p.to_bytes();
    let q = RadiusPacket::from_bytes(&bytes).expect("round trip must decode");
    assert_eq!(q.code, p.code);
    assert_eq!(q.identifier, p.identifier);
    assert_eq!(q.authenticator, p.authenticator);
    assert_eq!(q.attributes.len(), p.attributes.len());
    for (a, b) in p.attributes.iter().zip(q.attributes.iter()) {
        assert_eq!(a.typ, b.typ);
        assert_eq!(a.len, b.len);
        assert_eq!(a.value, b.value);
    }
    assert_eq!(q.length as usize, bytes.len());
}

#[test]
fn encoded_length_field_is_twenty_plus_attributes() {
    let p = sample_packet();
    let bytes = p.to_bytes();
    let expected: usize = 20 + p.attributes.iter().map(|a| 2 + a.value.len()).sum::<usize>();
    assert_eq!(bytes.len(), expected);
    let declared = ((bytes[2] as usize) << 8) | bytes[3] as usize;
    assert_eq!(declared, expected);
}

#[test]
fn empty_packet_encodes_to_bare_header() {
    let p = RadiusPacket {
        code: 5,
        identifier: 7,
        length: 0,
        authenticator: [0u8; 16],
        attributes: Vec::new(),
    };
    let bytes = p.to_bytes();
    assert_eq!(bytes.len(), 20);
    assert_eq!(bytes[0], 5);
    assert_eq!(bytes[1], 7);
    assert_eq!(bytes[2], 0);
    assert_eq!(bytes[3], 20);
}

#[test]
fn constructed_attributes_keep_the_length_invariant() {
    let attrs = vec![
        RadiusAttribute::reply_message("some text"),
        RadiusAttribute::user_name("bob"),
        RadiusAttribute::session_timeout(1),
        RadiusAttribute::idle_timeout(0),
        RadiusAttribute::vendor_specific(9, vec![1, 2, 3]),
        RadiusAttribute::wispr_bandwidth_max_up(512_000),
        RadiusAttribute::wispr_bandwidth_max_down(1_000_000),
    ];
    for a in &attrs {
        assert_eq!(a.len as usize, 2 + a.value.len());
        assert!(a.len >= 2);
    }
}

#[test]
fn attribute_constructors_emit_expected_bytes() {
    let st = RadiusAttribute::session_timeout(3600);
    assert_eq!(st.typ, 27);
    assert_eq!(st.value, vec![0, 0, 0x0E, 0x10]);

    let it = RadiusAttribute::idle_timeout(300);
    assert_eq!(it.typ, 28);
    assert_eq!(it.value, vec![0, 0, 0x01, 0x2C]);

    let rm = RadiusAttribute::reply_message("hi");
    assert_eq!(rm.typ, 18);
    assert_eq!(rm.value, b"hi".to_vec());
    assert_eq!(rm.len, 4);

    let un = RadiusAttribute::user_name("alice");
    assert_eq!(un.typ, 1);
    assert_eq!(un.value, b"alice".to_vec());

    let up = RadiusAttribute::wispr_bandwidth_max_up(512_000);
    assert_eq!(up.typ, 26);
    assert_eq!(up.value[..4], [0, 0, 0x37, 0x2A]);
    assert_eq!(up.value[4], 7);
    assert_eq!(up.value[5], 6);
    assert_eq!(up.value[6..10], [0, 0x07, 0xD0, 0x00]);

    let down = RadiusAttribute::wispr_bandwidth_max_down(1_000_000);
    assert_eq!(down.value[4], 8);
    assert_eq!(down.value[6..10], [0, 0x0F, 0x42, 0x40]);
}

#[test]
fn vendor_specific_decodes_back() {
    let payload = vec![7u8, 6, 0xAA, 0xBB, 0xCC, 0xDD];
    let attr = RadiusAttribute::vendor_specific(14122, payload.clone());
    assert_eq!(attr.typ, 26);
    let parsed = radius_server::packet::decode_vendor_specific(&attr.value)
        .expect("well-formed vendor value must parse");
    assert_eq!(parsed.vendor_id, 14122);
    assert_eq!(parsed.vendor_type, 7);
    assert_eq!(parsed.vendor_len, 6);
    assert_eq!(parsed.data, payload[2..].to_vec());
}

#[test]
fn vendor_specific_too_short_is_rejected() {
    assert!(radius_server::packet::decode_vendor_specific(&[0, 0, 0, 9, 1]).is_none());
}

#[test]
fn vendor_specific_overlong_sub_length_gives_empty_data() {
    let value = vec![0u8, 0, 0, 9, 1, 200, 1, 2];
    let parsed = radius_server::packet::decode_vendor_specific(&value).unwrap();
    assert_eq!(parsed.vendor_len, 200);
    assert!(parsed.data.is_empty());
}

#[test]
fn too_short_buffer_is_rejected() {
    let buf = [1u8; 19];
    assert!(matches!(RadiusPacket::from_bytes(&buf), Err(ProtocolError::TooShort)));
    assert!(matches!(RadiusPacket::from_bytes(&[]), Err(ProtocolError::TooShort)));
}

#[test]
fn declared_length_beyond_buffer_is_rejected() {
    let mut buf = vec![1u8, 0, 0, 30];
    buf.extend_from_slice(&[0u8; 16]);
    buf.extend_from_slice(&[0u8; 5]);
    assert!(matches!(RadiusPacket::from_bytes(&buf), Err(ProtocolError::LengthMismatch)));
}

#[test]
fn attribute_length_zero_or_one_is_rejected() {
    for bad_len in [0u8, 1u8] {
        let mut buf = vec![1u8, 0, 0, 24];
        buf.extend_from_slice(&[0u8; 16]);
        buf.extend_from_slice(&[18, bad_len, 0, 0]);
        match RadiusPacket::from_bytes(&buf) {
            Err(ProtocolError::InvalidAttributeLength(off, l)) => {
                assert_eq!(off, 20);
                assert_eq!(l, bad_len);
            }
            other => panic!("expected InvalidAttributeLength, got {:?}", other),
        }
    }
}

#[test]
fn attribute_running_past_declared_length_is_rejected() {
    let mut buf = vec![1u8, 0, 0, 24];
    buf.extend_from_slice(&[0u8; 16]);
    buf.extend_from_slice(&[18, 10, 0, 0]);
    assert!(matches!(
        RadiusPacket::from_bytes(&buf),
        Err(ProtocolError::InvalidAttributeLength(20, 10))
    ));
}

#[test]
fn truncated_attribute_header_is_rejected() {
    let mut buf = vec![1u8, 0, 0, 21];
    buf.extend_from_slice(&[0u8; 16]);
    buf.push(18);
    assert!(matches!(RadiusPacket::from_bytes(&buf), Err(ProtocolError::TruncatedAttribute(20))));
}

#[test]
fn trailing_bytes_beyond_declared_length_are_ignored() {
    let p = sample_packet();
    let mut bytes = p.to_bytes();
    let declared = bytes.len();
    bytes.extend_from_slice(&[0xFF; 7]);
    let q = RadiusPacket::from_bytes(&bytes).expect("padding must not break decoding");
    assert_eq!(q.length as usize, declared);
    assert_eq!(q.attributes.len(), p.attributes.len());
}

#[test]
fn username_returns_first_user_name() {
    let p = sample_packet();
    assert_eq!(p.username(), Some("alice".to_string()));

    let no_name = RadiusPacket {
        code: 1,
        identifier: 0,
        length: 0,
        authenticator: [0u8; 16],
        attributes: vec![RadiusAttribute::reply_message("x")],
    };
    assert_eq!(no_name.username(), None);

    let bad_utf8 = RadiusPacket {
        code: 1,
        identifier: 0,
        length: 0,
        authenticator: [0u8; 16],
        attributes: vec![RadiusAttribute {
            typ: 1,
            len: 4,
            value: vec![0xFF, 0xFE],
        }],
    };
    assert_eq!(bad_utf8.username(), None);
}

#[test]
fn reply_builders_echo_identifier_and_stamp_codes() {
    let req = RadiusPacket {
        code: 1,
        identifier: 77,
        length: 0,
        authenticator: [3u8; 16],
        attributes: Vec::new(),
    };

    let accept = req.reply_accept(vec![RadiusAttribute::session_timeout(60)]);
    assert_eq!(accept.code, 2);
    assert_eq!(accept.identifier, 77);
    assert_eq!(accept.authenticator, [0u8; 16]);
    assert_eq!(accept.attributes.len(), 1);

    let reject = req.reply_reject("no");
    assert_eq!(reject.code, 3);
    assert_eq!(reject.identifier, 77);
    assert_eq!(reject.attributes.len(), 1);
    assert_eq!(reject.attributes[0].typ, 18);
    assert_eq!(reject.attributes[0].value, b"no".to_vec());

    let challenge = req.reply_challenge("answer me");
    assert_eq!(challenge.code, 11);
    assert_eq!(challenge.attributes[0].value, b"answer me".to_vec());

    let accept2 = RadiusPacket::access_accept(9, Vec::new());
    assert_eq!(accept2.code, 2);
    assert_eq!(accept2.identifier, 9);

    let reject2 = RadiusPacket::access_reject(9, "denied");
    assert_eq!(reject2.code, 3);

    let challenge2 = RadiusPacket::access_challenge(9, "more");
    assert_eq!(challenge2.code, 11);
}

#[test]
fn radius_type_names_are_the_catalog_names() {
    assert_eq!(radius_server::packet::radius_type_name(1), "User-Name");
    assert_eq!(radius_server::packet::radius_type_name(18), "Reply-Message");
    assert_eq!(radius_server::packet::radius_type_name(26), "Vendor-Specific");
    assert_eq!(radius_server::packet::radius_type_name(27), "Session-Timeout");
    assert_eq!(radius_server::packet::radius_type_name(200), "Unknown");
}
