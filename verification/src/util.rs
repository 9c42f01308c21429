//! An alternative accounting verifier that hashes with the authenticator
//! it was handed in place of the zero substitution, kept alongside the
//! zero-substituting one.

use vstd::prelude::*;
use vstd::string::*;
use crate::handler::{md5_digest, md5_of, acct_response_bytes};

verus! {

broadcast use vstd::string::group_string_axioms;

/// The bytes this verifier hashes: the 4 header bytes, the authenticator
/// it was handed in the authenticator position, the attribute bytes, and
/// the secret.
pub open spec fn echo_verify_data(packet: Seq<u8>, received: Seq<u8>, secret: Seq<u8>) -> Seq<u8> {
    packet.subrange(0, 4) + received + packet.skip(20) + secret
}

/// Verifies an Accounting-Request's Request-Authenticator, hashing with
/// the handed authenticator in the authenticator position instead of
/// zeros. A datagram without a full header never verifies.
pub fn verify_accounting_request_authenticator(
    packet: &[u8],
    secret: &str,
    received_auth: [u8; 16],
) -> (b: bool)
    ensures
        b == (packet@.len() >= 20 && md5_of(
            echo_verify_data(packet@, received_auth@, secret.spec_bytes()),
        ) == received_auth@),
{
    if packet.len() < 20 {
        return false;
    }

    let mut data: Vec<u8> = Vec::new();
    data.push(packet[0]);
    data.push(packet[1]);
    data.push(packet[2]);
    data.push(packet[3]);
    assert(data@ =~= packet@.subrange(0, 4));
    let mut k: usize = 0;
    while k < 16
        invariant
            k <= 16,
            data@ == packet@.subrange(0, 4) + received_auth@.take(k as int),
            packet@.len() >= 20,
        decreases 16 - k,
    {
        data.push(received_auth[k]);
        k = k + 1;
        assert(data@ =~= packet@.subrange(0, 4) + received_auth@.take(k as int));
    }
    assert(received_auth@.take(16) =~= received_auth@);

    let ghost before_tail = data@;
    let mut t: usize = 20;
    while t < packet.len()
        invariant
            20 <= t <= packet@.len(),
            data@ == before_tail + packet@.subrange(20, t as int),
        decreases packet@.len() - t,
    {
        data.push(packet[t]);
        t = t + 1;
        assert(data@ =~= before_tail + packet@.subrange(20, t as int));
    }
    assert(packet@.subrange(20, packet@.len() as int) =~= packet@.skip(20));

    let ghost before_secret = data@;
    let secret_bytes: Vec<u8> = secret.as_bytes_vec();
    let mut s: usize = 0;
    while s < secret_bytes.len()
        invariant
            s <= secret_bytes@.len(),
            data@ == before_secret + secret_bytes@.take(s as int),
        decreases secret_bytes@.len() - s,
    {
        data.push(secret_bytes[s]);
        s = s + 1;
        assert(data@ =~= before_secret + secret_bytes@.take(s as int));
    }
    assert(data@ =~= echo_verify_data(packet@, received_auth@, secret.spec_bytes()));

    let hash: [u8; 16] = md5_digest(&data);
    let mut e: usize = 0;
    while e < 16
        invariant
            e <= 16,
            hash@ == md5_of(echo_verify_data(packet@, received_auth@, secret.spec_bytes())),
            forall|i: int| 0 <= i < e ==> hash@[i] == received_auth@[i],
        decreases 16 - e,
    {
        if hash[e] != received_auth[e] {
            assert(hash@[e as int] != received_auth@[e as int]);
            return false;
        }
        e = e + 1;
    }
    assert(hash@ =~= received_auth@);
    true
}

/// Builds a 20-byte Accounting-Response datagram for the given identifier,
/// authenticated against the request's authenticator and the secret.
pub fn build_accounting_response(identifier: u8, request_auth: [u8; 16], secret: &str) -> (r: Vec<
    u8,
>)
    ensures
        r@ == acct_response_bytes(identifier, request_auth@, secret.spec_bytes()),
        r@.len() == 20,
{
    crate::handler::build_accounting_response(identifier, request_auth, secret)
}

} // verus!
