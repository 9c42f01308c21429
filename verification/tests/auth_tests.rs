use radius_server::handler::{
    build_accounting_response, build_response_with_auth, finalize_response, handle,
    process_accounting_datagram, verify_accounting_request_authenticator,
};
use radius_server::packet::{RadiusAttribute, RadiusPacket};

const SECRET: &str = "test123";

fn request(identifier: u8, authenticator: [u8; 16], attributes: Vec<RadiusAttribute>) -> RadiusPacket {
    RadiusPacket {
        code: 1,
        identifier,
        length: 0,
        authenticator,
        attributes,
    }
}

/// The Response-Authenticator recomputed independently of the library:
/// MD5(code | id | length | request-authenticator | attributes | secret).
fn expected_response_auth(resp: &RadiusPacket, request_auth: &[u8; 16], secret: &str) -> [u8; 16] {
    let mut data = Vec::new();
    data.push(resp.code);
    data.push(resp.identifier);
    data.push((resp.length >> 8) as u8);
    data.push(resp.length as u8);
    data.extend_from_slice(request_auth);
    for a in &resp.attributes {
        data.push(a.typ);
        data.push(a.len);
        data.extend_from_slice(&a.value);
    }
    data.extend_from_slice(secret.as_bytes());
    md5::compute(&data).0
}

#[test]
fn response_authenticator_matches_independent_md5() {
    let req_auth = [7u8; 16];
    let reply = RadiusPacket::access_accept(5, vec![RadiusAttribute::session_timeout(60)]);
    let resp = build_response_with_auth(reply, req_auth, SECRET);
    assert_eq!(resp.code, 2);
    assert_eq!(resp.identifier, 5);
    assert_eq!(resp.length, 20 + 6);
    assert_eq!(resp.authenticator, expected_response_auth(&resp, &req_auth, SECRET));
}

#[test]
fn response_authenticator_is_deterministic() {
    let req_auth = [0xABu8; 16];
    let a = build_response_with_auth(
        RadiusPacket::access_reject(9, "nope"),
        req_auth,
        SECRET,
    );
    let b = build_response_with_auth(
        RadiusPacket::access_reject(9, "nope"),
        req_auth,
        SECRET,
    );
    assert_eq!(a.authenticator, b.authenticator);
    assert_eq!(a.length, b.length);
}

#[test]
fn response_authenticator_changes_with_any_input() {
    let req_auth = [0xABu8; 16];
    let base = build_response_with_auth(RadiusPacket::access_reject(9, "nope"), req_auth, SECRET);

    let other_id = build_response_with_auth(RadiusPacket::access_reject(10, "nope"), req_auth, SECRET);
    assert_ne!(base.authenticator, other_id.authenticator);

    let mut tweaked_auth = req_auth;
    tweaked_auth[3] ^= 1;
    let other_auth =
        build_response_with_auth(RadiusPacket::access_reject(9, "nope"), tweaked_auth, SECRET);
    assert_ne!(base.authenticator, other_auth.authenticator);

    let other_secret =
        build_response_with_auth(RadiusPacket::access_reject(9, "nope"), req_auth, "test124");
    assert_ne!(base.authenticator, other_secret.authenticator);

    let other_text =
        build_response_with_auth(RadiusPacket::access_reject(9, "nopf"), req_auth, SECRET);
    assert_ne!(base.authenticator, other_text.authenticator);
}

#[test]
fn accounting_response_layout_and_hash() {
    let req_auth = [0x11u8; 16];
    let resp = build_accounting_response(33, req_auth, SECRET);
    assert_eq!(resp.len(), 20);
    assert_eq!(&resp[0..4], &[5, 33, 0, 20]);
    let mut data = vec![5u8, 33, 0, 20];
    data.extend_from_slice(&req_auth);
    data.extend_from_slice(SECRET.as_bytes());
    assert_eq!(&resp[4..20], &md5::compute(&data).0);
}

#[test]
fn accounting_response_for_zero_auth_verifies() {
    let resp = build_accounting_response(33, [0u8; 16], SECRET);
    let mut carried = [0u8; 16];
    carried.copy_from_slice(&resp[4..20]);
    assert!(verify_accounting_request_authenticator(&resp, SECRET, carried));
}

#[test]
fn accounting_verification_fails_on_any_flip() {
    let resp = build_accounting_response(33, [0u8; 16], SECRET);
    let mut carried = [0u8; 16];
    carried.copy_from_slice(&resp[4..20]);

    assert!(!verify_accounting_request_authenticator(&resp, "test124", carried));

    let mut broken = resp.clone();
    broken[1] ^= 0x40;
    assert!(!verify_accounting_request_authenticator(&broken, SECRET, carried));

    let mut wrong = carried;
    wrong[0] ^= 1;
    assert!(!verify_accounting_request_authenticator(&resp, SECRET, wrong));

    assert!(!verify_accounting_request_authenticator(&resp[..10], SECRET, carried));
}

/// A well-formed Accounting-Request: its authenticator is the MD5 of the
/// packet with zeros in the authenticator position, followed by the secret.
fn accounting_request(identifier: u8, attributes: &[u8], secret: &str) -> Vec<u8> {
    let length = (20 + attributes.len()) as u16;
    let mut pkt = vec![4u8, identifier, (length >> 8) as u8, length as u8];
    let mut data = pkt.clone();
    data.extend_from_slice(&[0u8; 16]);
    data.extend_from_slice(attributes);
    data.extend_from_slice(secret.as_bytes());
    let digest = md5::compute(&data).0;
    pkt.extend_from_slice(&digest);
    pkt.extend_from_slice(attributes);
    pkt
}

#[test]
fn valid_accounting_request_gets_a_response() {
    let attrs = [40u8, 6, 0, 0, 0, 1];
    let raw = accounting_request(8, &attrs, SECRET);
    let (packet, response) =
        process_accounting_datagram(&raw, SECRET).expect("a signed request must be answered");
    assert_eq!(packet.code, 4);
    assert_eq!(packet.identifier, 8);
    assert_eq!(packet.attributes.len(), 1);
    assert_eq!(response.len(), 20);
    assert_eq!(&response[0..4], &[5, 8, 0, 20]);

    let mut data = vec![5u8, 8, 0, 20];
    data.extend_from_slice(&packet.authenticator);
    data.extend_from_slice(SECRET.as_bytes());
    assert_eq!(&response[4..20], &md5::compute(&data).0);
}

#[test]
fn forged_or_malformed_accounting_requests_are_dropped() {
    let attrs = [40u8, 6, 0, 0, 0, 1];
    let raw = accounting_request(8, &attrs, SECRET);

    assert!(process_accounting_datagram(&raw, "wrong").is_none());

    let mut tampered = raw.clone();
    tampered[24] ^= 1;
    assert!(process_accounting_datagram(&tampered, SECRET).is_none());

    assert!(process_accounting_datagram(&raw[..12], SECRET).is_none());
}

#[test]
fn finalize_stamps_a_successful_reply() {
    let req = request(21, [5u8; 16], vec![RadiusAttribute::user_name("alice")]);
    let reply = req.reply_accept(vec![RadiusAttribute::session_timeout(3600)]);
    let resp = finalize_response(&req, Ok(reply), SECRET);
    assert_eq!(resp.code, 2);
    assert_eq!(resp.identifier, 21);
    assert_eq!(resp.length, 26);
    assert_eq!(resp.authenticator, expected_response_auth(&resp, &req.authenticator, SECRET));
}

#[test]
fn finalize_turns_a_callback_error_into_a_reject() {
    let req = request(22, [6u8; 16], Vec::new());
    let resp = finalize_response(&req, Err("boom".to_string()), SECRET);
    assert_eq!(resp.code, 3);
    assert_eq!(resp.identifier, 22);
    assert_eq!(resp.attributes.len(), 1);
    assert_eq!(resp.attributes[0].typ, 18);
    assert_eq!(resp.attributes[0].value, b"Internal Error".to_vec());
    assert_eq!(resp.length, 36);
    assert_eq!(resp.authenticator, expected_response_auth(&resp, &req.authenticator, SECRET));
}

#[test]
fn handle_grants_and_echoes_the_username() {
    let req = request(77, [0xC3u8; 16], vec![RadiusAttribute::user_name("alice")]);
    let resp = handle(&req);
    assert_eq!(resp.code, 2);
    assert_eq!(resp.identifier, 77);
    assert_eq!(resp.attributes.len(), 6);
    assert_eq!(resp.attributes[0].typ, 18);
    assert_eq!(
        resp.attributes[0].value,
        b"Access granted via Rust RADIUS server.".to_vec()
    );
    assert_eq!(resp.attributes[1].typ, 27);
    assert_eq!(resp.attributes[1].value, vec![0, 0, 0x0E, 0x10]);
    assert_eq!(resp.attributes[2].typ, 28);
    assert_eq!(resp.attributes[2].value, vec![0, 0, 0x01, 0x2C]);
    assert_eq!(resp.attributes[3].typ, 26);
    assert_eq!(resp.attributes[4].typ, 26);
    assert_eq!(resp.attributes[5].typ, 1);
    assert_eq!(resp.attributes[5].value, b"alice".to_vec());
    assert_eq!(resp.authenticator, expected_response_auth(&resp, &req.authenticator, SECRET));
}

#[test]
fn handle_without_username_sends_the_five_base_attributes() {
    let req = request(78, [0u8; 16], vec![RadiusAttribute::session_timeout(5)]);
    let resp = handle(&req);
    assert_eq!(resp.code, 2);
    assert_eq!(resp.attributes.len(), 5);
}

#[test]
fn util_verifier_follows_its_substitution_rule() {
    let raw = accounting_request(3, &[], SECRET);
    let mut carried = [0u8; 16];
    carried.copy_from_slice(&raw[4..20]);

    let mut data = Vec::new();
    data.extend_from_slice(&raw[0..4]);
    data.extend_from_slice(&carried);
    data.extend_from_slice(&raw[20..]);
    data.extend_from_slice(SECRET.as_bytes());
    let expected = md5::compute(&data).0 == carried;
    assert_eq!(
        radius_server::util::verify_accounting_request_authenticator(&raw, SECRET, carried),
        expected
    );
    assert!(!radius_server::util::verify_accounting_request_authenticator(&raw[..5], SECRET, carried));

    let resp = radius_server::util::build_accounting_response(3, carried, SECRET);
    assert_eq!(resp.len(), 20);
    assert_eq!(&resp[0..4], &[5, 3, 0, 20]);
}
