use radius_server::handler::finalize_response;
use radius_server::packet::{RadiusAttribute, RadiusPacket};

const SECRET: &str = "test123";
const ALLOWED: &str = "ec:30:b3:6d:24:6a";

/// The decision a policy callback would take: grant exactly one username a
/// one-hour session, reject everyone else.
fn decide(packet: &RadiusPacket) -> Result<RadiusPacket, String> {
    match packet.username() {
        Some(name) if name == ALLOWED => Ok(packet.reply_accept(vec![
            RadiusAttribute::session_timeout(3600),
            RadiusAttribute::reply_message("Welcome."),
        ])),
        _ => Ok(packet.reply_reject("User not allowed")),
    }
}

fn access_request(identifier: u8, username: &str) -> Vec<u8> {
    let req = RadiusPacket {
        code: 1,
        identifier,
        length: 0,
        authenticator: [0x5Au8; 16],
        attributes: vec![RadiusAttribute::user_name(username)],
    };
    req.to_bytes()
}

fn response_auth_is_valid(resp: &RadiusPacket, request_auth: &[u8; 16], secret: &str) -> bool {
    let mut data = Vec::new();
    data.push(resp.code);
    data.push(resp.identifier);
    data.push((resp.length >> 8) as u8);
    data.push(resp.length as u8);
    data.extend_from_slice(request_auth);
    for a in &resp.attributes {
        data.push(a.typ);
        data.push(a.len);
        data.extend_from_slice(&a.value);
    }
    data.extend_from_slice(secret.as_bytes());
    md5::compute(&data).0 == resp.authenticator
}

#[test]
fn allowed_username_gets_a_valid_access_accept() {
    let raw = access_request(117, ALLOWED);
    let req = RadiusPacket::from_bytes(&raw).expect("the request is well formed");
    assert_eq!(req.code, 1);
    assert_eq!(req.username().as_deref(), Some(ALLOWED));

    let outcome = decide(&req);
    let resp = finalize_response(&req, outcome, SECRET);

    assert_eq!(resp.code, 2);
    assert_eq!(resp.identifier, 117);
    let timeout = resp
        .attributes
        .iter()
        .find(|a| a.typ == 27)
        .expect("an accept carries a Session-Timeout");
    assert_eq!(timeout.value, vec![0, 0, 0x0E, 0x10]);
    assert!(resp.attributes.iter().any(|a| a.typ == 18));
    assert!(response_auth_is_valid(&resp, &req.authenticator, SECRET));
}

#[test]
fn any_other_username_gets_a_reject() {
    let raw = access_request(118, "someone-else");
    let req = RadiusPacket::from_bytes(&raw).unwrap();

    let outcome = decide(&req);
    let resp = finalize_response(&req, outcome, SECRET);

    assert_eq!(resp.code, 3);
    assert_eq!(resp.identifier, 118);
    assert_eq!(resp.attributes.len(), 1);
    assert_eq!(resp.attributes[0].typ, 18);
    assert_eq!(resp.attributes[0].value, b"User not allowed".to_vec());
    assert!(response_auth_is_valid(&resp, &req.authenticator, SECRET));
}

#[test]
fn the_wire_response_decodes_to_what_was_stamped() {
    let raw = access_request(119, ALLOWED);
    let req = RadiusPacket::from_bytes(&raw).unwrap();
    let resp = finalize_response(&req, decide(&req), SECRET);
    let wire = resp.to_bytes();
    let back = RadiusPacket::from_bytes(&wire).unwrap();
    assert_eq!(back.code, resp.code);
    assert_eq!(back.identifier, resp.identifier);
    assert_eq!(back.authenticator, resp.authenticator);
    assert_eq!(back.length as usize, wire.len());
}
