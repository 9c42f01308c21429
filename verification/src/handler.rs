//! The authenticator protocol: the keyed MD5 hashes that bind responses to
//! requests, and the request handling and per-datagram dispatch decisions
//! built on them.

use vstd::prelude::*;
use vstd::string::*;
use crate::packet::{
    RadiusAttribute, RadiusPacket, AttrModel, attr_views, attrs_bytes, attrs_len, attr_wf,
    all_attrs_wf, header_bytes, packet_wf, packet_len_fits, zeros16, encode_packet_bytes,
    first_user_name, lemma_attrs_len_nonneg, lemma_attrs_bytes_push, parse_packet, u32_be,
};

verus! {

broadcast use vstd::string::group_string_axioms;

/// The 16-byte MD5 digest of a byte string; what its bits are is the md5
/// crate's business alone.
pub uninterp spec fn md5_of(data: Seq<u8>) -> Seq<u8>;

/// Relies on md5::compute: the digest is 16 bytes and depends on the input
/// bytes alone.
#[verifier::external_body]
pub(crate) fn md5_digest(data: &Vec<u8>) -> (r: [u8; 16])
    ensures
        r@ == md5_of(data@),
{
    md5::compute(data.as_slice()).0
}

/// The Response-Authenticator: MD5 over code, identifier, length,
/// the request's authenticator, the response attributes, and the secret.
pub open spec fn response_auth(
    code: u8,
    identifier: u8,
    length: u16,
    request_auth: Seq<u8>,
    attrs: Seq<AttrModel>,
    secret: Seq<u8>,
) -> Seq<u8> {
    md5_of(header_bytes(code, identifier, length, request_auth) + attrs_bytes(attrs) + secret)
}

/// Builds a response packet with the proper Response-Authenticator: the
/// length and authenticator fields are replaced by the computed values,
/// everything else is kept.
pub fn build_response_with_auth(
    packet: RadiusPacket,
    request_authenticator: [u8; 16],
    secret: &str,
) -> (r: RadiusPacket)
    requires
        packet_wf(packet@),
        packet_len_fits(packet@),
    ensures
        r@.code == packet@.code,
        r@.identifier == packet@.identifier,
        r@.attributes == packet@.attributes,
        r@.length == 20 + attrs_len(packet@.attributes),
        r@.authenticator == response_auth(
            packet@.code,
            packet@.identifier,
            (20 + attrs_len(packet@.attributes)) as u16,
            request_authenticator@,
            packet@.attributes,
            secret.spec_bytes(),
        ),
        packet_wf(r@),
{
    proof {
        lemma_attrs_len_nonneg(attr_views(packet.attributes@));
    }
    let mut buf = encode_packet_bytes(
        packet.code,
        packet.identifier,
        &request_authenticator,
        &packet.attributes,
    );
    let total: usize = buf.len();
    let length: u16 = total as u16;

    let ghost hashed_prefix = buf@;
    let secret_bytes: Vec<u8> = secret.as_bytes_vec();
    let mut k: usize = 0;
    while k < secret_bytes.len()
        invariant
            k <= secret_bytes@.len(),
            buf@ == hashed_prefix + secret_bytes@.take(k as int),
        decreases secret_bytes@.len() - k,
    {
        buf.push(secret_bytes[k]);
        k = k + 1;
        assert(buf@ =~= hashed_prefix + secret_bytes@.take(k as int));
    }
    assert(buf@ =~= hashed_prefix + secret.spec_bytes());

    let authenticator: [u8; 16] = md5_digest(&buf);
    RadiusPacket {
        code: packet.code,
        identifier: packet.identifier,
        length,
        authenticator,
        attributes: packet.attributes,
    }
}

/// Computing the Response-Authenticator is deterministic: the same code,
/// identifier, length, request authenticator, attributes and secret always
/// give the same 16 bytes.
pub proof fn lemma_response_auth_deterministic(
    code1: u8,
    identifier1: u8,
    length1: u16,
    request_auth1: Seq<u8>,
    attrs1: Seq<AttrModel>,
    secret1: Seq<u8>,
    code2: u8,
    identifier2: u8,
    length2: u16,
    request_auth2: Seq<u8>,
    attrs2: Seq<AttrModel>,
    secret2: Seq<u8>,
)
    requires
        code1 == code2,
        identifier1 == identifier2,
        length1 == length2,
        request_auth1 == request_auth2,
        attrs1 == attrs2,
        secret1 == secret2,
    ensures
        response_auth(code1, identifier1, length1, request_auth1, attrs1, secret1)
            == response_auth(code2, identifier2, length2, request_auth2, attrs2, secret2),
{
}

/// The bytes an accounting verifier hashes: the 4 header bytes, sixteen
/// zero bytes in the authenticator position, the attribute bytes, and the
/// secret.
pub open spec fn acct_verify_data(packet: Seq<u8>, secret: Seq<u8>) -> Seq<u8> {
    packet.subrange(0, 4) + zeros16() + packet.skip(20) + secret
}

/// When an accounting datagram passes verification: it has a full header
/// and the zero-substituted hash equals the authenticator it carries.
pub open spec fn acct_verify_ok(packet: Seq<u8>, secret: Seq<u8>, received: Seq<u8>) -> bool {
    packet.len() >= 20 && md5_of(acct_verify_data(packet, secret)) == received
}

/// Compares two 16-byte strings.
fn bytes16_eq(x: &[u8; 16], y: &[u8; 16]) -> (b: bool)
    ensures
        b == (x@ == y@),
{
    let mut k: usize = 0;
    while k < 16
        invariant
            k <= 16,
            forall|t: int| 0 <= t < k ==> x@[t] == y@[t],
        decreases 16 - k,
    {
        if x[k] != y[k] {
            assert(x@[k as int] != y@[k as int]);
            return false;
        }
        k = k + 1;
    }
    assert(x@ =~= y@);
    true
}

/// Verifies an Accounting-Request's Request-Authenticator: recomputes the
/// MD5 with zeros in the authenticator position and compares it to the
/// authenticator received on the wire. A datagram without a full header
/// never verifies.
pub fn verify_accounting_request_authenticator(
    packet: &[u8],
    secret: &str,
    received_auth: [u8; 16],
) -> (b: bool)
    ensures
        b == acct_verify_ok(packet@, secret.spec_bytes(), received_auth@),
{
    if packet.len() < 20 {
        return false;
    }

    let mut data: Vec<u8> = Vec::new();
    data.push(packet[0]);
    data.push(packet[1]);
    data.push(packet[2]);
    data.push(packet[3]);
    assert(data@ =~= packet@.subrange(0, 4));
    let mut k: usize = 0;
    while k < 16
        invariant
            k <= 16,
            data@ == packet@.subrange(0, 4) + zeros16().take(k as int),
            packet@.len() >= 20,
        decreases 16 - k,
    {
        data.push(0);
        k = k + 1;
        assert(data@ =~= packet@.subrange(0, 4) + zeros16().take(k as int));
    }
    assert(zeros16().take(16) =~= zeros16());

    let ghost before_tail = data@;
    let mut t: usize = 20;
    while t < packet.len()
        invariant
            20 <= t <= packet@.len(),
            data@ == before_tail + packet@.subrange(20, t as int),
        decreases packet@.len() - t,
    {
        data.push(packet[t]);
        t = t + 1;
        assert(data@ =~= before_tail + packet@.subrange(20, t as int));
    }
    assert(packet@.subrange(20, packet@.len() as int) =~= packet@.skip(20));

    let ghost before_secret = data@;
    let secret_bytes: Vec<u8> = secret.as_bytes_vec();
    let mut s: usize = 0;
    while s < secret_bytes.len()
        invariant
            s <= secret_bytes@.len(),
            data@ == before_secret + secret_bytes@.take(s as int),
        decreases secret_bytes@.len() - s,
    {
        data.push(secret_bytes[s]);
        s = s + 1;
        assert(data@ =~= before_secret + secret_bytes@.take(s as int));
    }
    assert(data@ =~= acct_verify_data(packet@, secret.spec_bytes()));

    let hash: [u8; 16] = md5_digest(&data);
    bytes16_eq(&hash, &received_auth)
}

/// The bytes of an Accounting-Response: a fixed 20-byte packet whose
/// authenticator is MD5 over its own 4 header bytes, the request's
/// authenticator, and the secret.
pub open spec fn acct_response_bytes(identifier: u8, request_auth: Seq<u8>, secret: Seq<u8>) -> Seq<
    u8,
> {
    let hdr = seq![5u8, identifier, 0u8, 20u8];
    hdr + md5_of(hdr + request_auth + secret)
}

/// Builds a 20-byte Accounting-Response datagram for the given identifier,
/// authenticated against the request's authenticator and the secret.
pub fn build_accounting_response(identifier: u8, request_auth: [u8; 16], secret: &str) -> (r: Vec<
    u8,
>)
    ensures
        r@ == acct_response_bytes(identifier, request_auth@, secret.spec_bytes()),
        r@.len() == 20,
{
    let mut buf: Vec<u8> = Vec::new();
    buf.push(5);
    buf.push(identifier);
    buf.push(0);
    buf.push(0x14);

    let mut temp: Vec<u8> = Vec::new();
    temp.push(5);
    temp.push(identifier);
    temp.push(0);
    temp.push(0x14);
    let mut k: usize = 0;
    while k < 16
        invariant
            k <= 16,
            temp@ == seq![5u8, identifier, 0u8, 20u8] + request_auth@.take(k as int),
        decreases 16 - k,
    {
        temp.push(request_auth[k]);
        k = k + 1;
        assert(temp@ =~= seq![5u8, identifier, 0u8, 20u8] + request_auth@.take(k as int));
    }
    assert(request_auth@.take(16) =~= request_auth@);

    let ghost before_secret = temp@;
    let secret_bytes: Vec<u8> = secret.as_bytes_vec();
    let mut s: usize = 0;
    while s < secret_bytes.len()
        invariant
            s <= secret_bytes@.len(),
            temp@ == before_secret + secret_bytes@.take(s as int),
        decreases secret_bytes@.len() - s,
    {
        temp.push(secret_bytes[s]);
        s = s + 1;
        assert(temp@ =~= before_secret + secret_bytes@.take(s as int));
    }
    assert(temp@ =~= seq![5u8, identifier, 0u8, 20u8] + request_auth@ + secret.spec_bytes());

    let hash: [u8; 16] = md5_digest(&temp);
    let mut h: usize = 0;
    while h < 16
        invariant
            h <= 16,
            buf@ == seq![5u8, identifier, 0u8, 20u8] + hash@.take(h as int),
            hash@ == md5_of(seq![5u8, identifier, 0u8, 20u8] + request_auth@
                + secret.spec_bytes()),
        decreases 16 - h,
    {
        buf.push(hash[h]);
        h = h + 1;
        assert(buf@ =~= seq![5u8, identifier, 0u8, 20u8] + hash@.take(h as int));
    }
    assert(hash@.take(16) =~= hash@);
    assert(buf@ =~= acct_response_bytes(identifier, request_auth@, secret.spec_bytes()));
    buf
}

/// Accounting round trip: a response built for an all-zero request
/// authenticator passes accounting verification against the same secret,
/// checked against the authenticator the response itself carries. (For a
/// nonzero request authenticator the zero-substituted hash differs, so
/// nothing is claimed there.)
pub proof fn lemma_accounting_response_verifies(identifier: u8, secret: Seq<u8>)
    requires
        md5_of(seq![5u8, identifier, 0u8, 20u8] + zeros16() + secret).len() == 16,
    ensures
        ({
            let resp = acct_response_bytes(identifier, zeros16(), secret);
            acct_verify_ok(resp, secret, resp.subrange(4, 20))
        }),
{
    let hdr = seq![5u8, identifier, 0u8, 20u8];
    let d = md5_of(hdr + zeros16() + secret);
    let resp = acct_response_bytes(identifier, zeros16(), secret);
    assert(resp == hdr + d);
    assert(resp.len() == 20);
    assert(resp.subrange(0, 4) =~= hdr);
    assert(resp.skip(20) =~= Seq::<u8>::empty());
    assert(resp.subrange(4, 20) =~= d);
    assert(acct_verify_data(resp, secret) =~= hdr + zeros16() + secret);
}

/// The per-datagram decision of the accounting loop: decode, verify the
/// Request-Authenticator, and when both succeed hand back the decoded
/// packet together with the Accounting-Response bytes to transmit. A
/// malformed or forged datagram gets `None`: dropped, no response.
pub fn process_accounting_datagram(raw: &[u8], secret: &str) -> (r: Option<
    (RadiusPacket, Vec<u8>),
>)
    ensures
        match parse_packet(raw@) {
            Ok(p) => if acct_verify_ok(raw@, secret.spec_bytes(), p.authenticator) {
                r matches Some(pr) && pr.0@ == p && pr.1@ == acct_response_bytes(
                    p.identifier,
                    p.authenticator,
                    secret.spec_bytes(),
                )
            } else {
                r is None
            },
            Err(_) => r is None,
        },
{
    let packet = match RadiusPacket::from_bytes(raw) {
        Ok(p) => p,
        Err(_) => {
            return None;
        },
    };

    if !verify_accounting_request_authenticator(raw, secret, packet.authenticator) {
        return None;
    }

    let response = build_accounting_response(packet.identifier, packet.authenticator, secret);
    Some((packet, response))
}

/// The value a first User-Name attribute carries is at most 253 bytes in a
/// packet whose attributes are all well formed.
pub proof fn lemma_first_user_name_len(s: Seq<AttrModel>)
    requires
        all_attrs_wf(s),
        first_user_name(s) is Some,
    ensures
        first_user_name(s).unwrap().len() <= 253,
    decreases s.len(),
{
    if s.len() == 0 {
    } else if s[0].typ == 1 {
        assert(attr_wf(s[0]));
    } else {
        assert(all_attrs_wf(s.skip(1))) by {
            assert(forall|t: int| 0 <= t < s.skip(1).len() ==> #[trigger] s.skip(1)[t] == s[t + 1]);
        }
        lemma_first_user_name_len(s.skip(1));
    }
}

/// The five attributes every grant carries: a fixed Reply-Message, a
/// one-hour Session-Timeout, a five-minute Idle-Timeout, and the two WISPr
/// bandwidth caps.
pub open spec fn granted_attrs_base() -> Seq<AttrModel> {
    seq![
        AttrModel {
            typ: 18,
            len: 40,
            value: ("Access granted via Rust RADIUS server.").spec_bytes(),
        },
        AttrModel { typ: 27, len: 6, value: u32_be(3600) },
        AttrModel { typ: 28, len: 6, value: u32_be(300) },
        AttrModel { typ: 26, len: 12, value: u32_be(14122) + seq![7u8, 6u8] + u32_be(512000) },
        AttrModel { typ: 26, len: 12, value: u32_be(14122) + seq![8u8, 6u8] + u32_be(1000000) },
    ]
}

/// The attributes `handle` grants: the fixed base, and — when the request
/// carries a UTF-8 User-Name — that name echoed back.
pub open spec fn handle_attrs(attrs: Seq<AttrModel>) -> Seq<AttrModel> {
    match first_user_name(attrs) {
        Some(v) => if vstd::utf8::valid_utf8(v) {
            granted_attrs_base().push(AttrModel { typ: 1, len: (2 + v.len()) as u8, value: v })
        } else {
            granted_attrs_base()
        },
        None => granted_attrs_base(),
    }
}

/// Grants the request: replies with an Access-Accept carrying the granted
/// attributes, authenticated against the request's authenticator with the
/// built-in secret `test123`.
pub fn handle(packet: &RadiusPacket) -> (r: RadiusPacket)
    requires
        packet_wf(packet@),
    ensures
        r@.code == 2,
        r@.identifier == packet@.identifier,
        r@.attributes == handle_attrs(packet@.attributes),
        r@.length == 20 + attrs_len(handle_attrs(packet@.attributes)),
        r@.authenticator == response_auth(
            2,
            packet@.identifier,
            (20 + attrs_len(handle_attrs(packet@.attributes))) as u16,
            packet@.authenticator,
            handle_attrs(packet@.attributes),
            ("test123").spec_bytes(),
        ),
{
    proof {
        reveal_strlit("Access granted via Rust RADIUS server.");
        assert(is_ascii("Access granted via Rust RADIUS server."));
    }
    let mut attributes: Vec<RadiusAttribute> = Vec::new();
    attributes.push(RadiusAttribute::reply_message("Access granted via Rust RADIUS server."));
    attributes.push(RadiusAttribute::session_timeout(3600));
    attributes.push(RadiusAttribute::idle_timeout(300));
    attributes.push(RadiusAttribute::wispr_bandwidth_max_up(512_000));
    attributes.push(RadiusAttribute::wispr_bandwidth_max_down(1_000_000));
    let ghost base = granted_attrs_base();
    proof {
        assert(attr_views(attributes@) =~= base);
        lemma_attrs_len_concrete(base);
    }

    let ghost full = attr_views(packet.attributes@);
    proof {
        assert(full.skip(0) =~= full);
    }
    let mut idx: usize = 0;
    let mut done: bool = false;
    while idx < packet.attributes.len() && !done
        invariant
            idx <= packet.attributes@.len(),
            full == attr_views(packet.attributes@),
            all_attrs_wf(full),
            !done ==> first_user_name(full) == first_user_name(full.skip(idx as int)),
            base == granted_attrs_base(),
            !done ==> attr_views(attributes@) == base,
            done ==> attr_views(attributes@) == handle_attrs(full),
            done ==> first_user_name(full) is Some,
            attrs_len(base) == 76,
        decreases packet.attributes@.len() - idx, if done { 0int } else { 1int },
    {
        proof {
            assert(full.skip(idx as int)[0] == full[idx as int]);
        }
        if packet.attributes[idx].typ == 1 {
            let a = &packet.attributes[idx];
            assert(first_user_name(full) == Some(a.value@));
            proof {
                lemma_first_user_name_len(full);
            }
            match crate::packet::utf8_str(a.value.as_slice()) {
                Some(s) => {
                    proof {
                        vstd::utf8::decode_utf8_encode_utf8(a.value@);
                        assert(s.spec_bytes() == a.value@);
                    }
                    let ghost prev = attr_views(attributes@);
                    attributes.push(RadiusAttribute::user_name(s));
                    proof {
                        assert(attr_views(attributes@) =~= prev.push(
                            AttrModel {
                                typ: 1,
                                len: (2 + a.value@.len()) as u8,
                                value: a.value@,
                            },
                        ));
                        assert(attr_views(attributes@) == handle_attrs(full));
                    }
                },
                None => {
                    assert(attr_views(attributes@) == handle_attrs(full));
                },
            }
            done = true;
        } else {
            idx = idx + 1;
            proof {
                assert(full.skip(idx - 1).skip(1) =~= full.skip(idx as int));
            }
        }
    }
    if !done {
        proof {
            if idx >= packet.attributes@.len() {
                assert(full.skip(idx as int).len() == 0);
                assert(first_user_name(full) is None);
            }
        }
    }
    assert(attr_views(attributes@) == handle_attrs(full));

    proof {
        lemma_handle_attrs_len(full);
    }
    let accept = RadiusPacket::access_accept(packet.identifier, attributes);
    build_response_with_auth(accept, packet.authenticator, "test123")
}

/// The five granted attributes take 76 bytes on the wire.
proof fn lemma_attrs_len_concrete(base: Seq<AttrModel>)
    requires
        base == granted_attrs_base(),
    ensures
        attrs_len(base) == 76,
        all_attrs_wf(base),
{
    reveal_strlit("Access granted via Rust RADIUS server.");
    assert(is_ascii("Access granted via Rust RADIUS server."));
    assert(base[0].value.len() == 38);
    assert(attrs_len(base.skip(5)) == 0) by {
        assert(base.skip(5).len() == 0);
    }
    assert(attrs_len(base.skip(4)) == 12) by {
        assert(base.skip(4)[0] == base[4]);
        assert(base.skip(4).skip(1) =~= base.skip(5));
    }
    assert(attrs_len(base.skip(3)) == 24) by {
        assert(base.skip(3)[0] == base[3]);
        assert(base.skip(3).skip(1) =~= base.skip(4));
    }
    assert(attrs_len(base.skip(2)) == 30) by {
        assert(base.skip(2)[0] == base[2]);
        assert(base.skip(2).skip(1) =~= base.skip(3));
    }
    assert(attrs_len(base.skip(1)) == 36) by {
        assert(base.skip(1)[0] == base[1]);
        assert(base.skip(1).skip(1) =~= base.skip(2));
    }
    assert(attrs_len(base) == 76) by {
        assert(base.skip(0) =~= base);
        assert(base.skip(0).skip(1) =~= base.skip(1));
        assert(attrs_len(base.skip(0)) == 2 + base[0].value.len() + attrs_len(base.skip(1)));
    }
}

/// The granted attributes are well formed and fit a packet: at most 76
/// bytes plus one echoed name.
pub proof fn lemma_handle_attrs_len(attrs: Seq<AttrModel>)
    requires
        all_attrs_wf(attrs),
    ensures
        all_attrs_wf(handle_attrs(attrs)),
        0 <= attrs_len(handle_attrs(attrs)) <= 76 + 255,
{
    let whole = handle_attrs(attrs);
    let base = granted_attrs_base();
    lemma_attrs_len_concrete(base);
    match first_user_name(attrs) {
        Some(v) => {
            lemma_first_user_name_len(attrs);
            if vstd::utf8::valid_utf8(v) {
                let echoed = AttrModel { typ: 1, len: (2 + v.len()) as u8, value: v };
                lemma_attrs_bytes_push(base, echoed);
                assert(whole == base.push(echoed));
                assert(forall|t: int| 0 <= t < 5 ==> #[trigger] whole[t] == base[t]);
                assert(whole[5] == echoed);
            }
        },
        None => {
        },
    }
}

/// The single Reply-Message attribute of a synthesized internal-error
/// reject.
pub open spec fn internal_error_attrs() -> Seq<AttrModel> {
    seq![AttrModel { typ: 18, len: 16, value: ("Internal Error").spec_bytes() }]
}

/// The dispatch decision after the decision callback has spoken: a reply
/// is stamped with its Response-Authenticator; a callback error becomes an
/// Access-Reject that says only "Internal Error", stamped the same way.
pub fn finalize_response(
    request: &RadiusPacket,
    outcome: Result<RadiusPacket, String>,
    secret: &str,
) -> (r: RadiusPacket)
    requires
        outcome matches Ok(reply) ==> packet_wf(reply@) && packet_len_fits(reply@),
    ensures
        match outcome {
            Ok(reply) => r@.code == reply@.code && r@.identifier == reply@.identifier
                && r@.attributes == reply@.attributes
                && r@.length == 20 + attrs_len(reply@.attributes)
                && r@.authenticator == response_auth(
                reply@.code,
                reply@.identifier,
                (20 + attrs_len(reply@.attributes)) as u16,
                request@.authenticator,
                reply@.attributes,
                secret.spec_bytes(),
            ),
            Err(_) => r@.code == 3 && r@.identifier == request@.identifier
                && r@.attributes == internal_error_attrs() && r@.length == 36
                && r@.authenticator == response_auth(
                3,
                request@.identifier,
                36,
                request@.authenticator,
                internal_error_attrs(),
                secret.spec_bytes(),
            ),
        },
{
    match outcome {
        Ok(reply) => build_response_with_auth(reply, request.authenticator, secret),
        Err(_) => {
            proof {
                reveal_strlit("Internal Error");
                assert(is_ascii("Internal Error"));
            }
            let reject = request.reply_reject("Internal Error");
            proof {
                assert(attr_views(reject.attributes@) =~= internal_error_attrs());
                let ia = internal_error_attrs();
                assert(ia.skip(1).len() == 0);
                assert(attrs_len(ia.skip(1)) == 0);
                assert(attrs_len(ia) == 2 + ia[0].value.len() + attrs_len(ia.skip(1)));
                assert(attrs_len(ia) == 16);
            }
            build_response_with_auth(reject, request.authenticator, secret)
        },
    }
}

} // verus!
