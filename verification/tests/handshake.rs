use overlay_node::crypto::NodeIdentity;
use overlay_node::handshake::{Credentials, Handshake, HandshakeError, Protocol, PROTOCOL_VERSION};

fn identity(n: u8) -> NodeIdentity {
    NodeIdentity::from_seed([n; 32])
}

fn waiting(hint: Option<u8>) -> Handshake {
    Handshake { hint: hint.map(|n| identity(n).id()), challenge: [7; 32], deadline: 100 }
}

#[test]
fn an_honest_peer_is_authenticated_under_its_identifier() {
    let peer = identity(2);
    let credentials = Handshake::respond(&peer, &[7; 32]);
    assert_eq!(credentials.version, PROTOCOL_VERSION);
    assert_eq!(credentials.public_key, peer.public_key());
    assert_eq!(credentials.signature, peer.sign(&[7; 32]));
    assert_eq!(waiting(None).finish(&credentials, 10), Ok(peer.id()));
    assert_eq!(waiting(Some(2)).finish(&credentials, 99), Ok(peer.id()));
}

#[test]
fn an_answer_to_another_challenge_is_a_mismatch() {
    let credentials = Handshake::respond(&identity(2), &[8; 32]);
    assert_eq!(waiting(None).finish(&credentials, 10), Err(HandshakeError::SignatureMismatch));
}

#[test]
fn a_signature_of_another_key_is_a_mismatch() {
    let mut credentials = Handshake::respond(&identity(2), &[7; 32]);
    credentials.public_key = identity(3).public_key();
    assert_eq!(waiting(None).finish(&credentials, 10), Err(HandshakeError::SignatureMismatch));
    let mut broken = Handshake::respond(&identity(2), &[7; 32]);
    broken.signature[10] ^= 0x40;
    assert_eq!(waiting(None).finish(&broken, 10), Err(HandshakeError::SignatureMismatch));
}

#[test]
fn another_peer_than_expected_is_a_mismatch() {
    let credentials = Handshake::respond(&identity(2), &[7; 32]);
    assert_eq!(
        waiting(Some(3)).finish(&credentials, 10),
        Err(HandshakeError::SignatureMismatch)
    );
}

#[test]
fn another_version_is_unsupported() {
    let mut credentials = Handshake::respond(&identity(2), &[7; 32]);
    credentials.version = 2;
    assert_eq!(waiting(None).finish(&credentials, 10), Err(HandshakeError::UnsupportedVersion));
    credentials.version = 0;
    assert_eq!(waiting(None).finish(&credentials, 10), Err(HandshakeError::UnsupportedVersion));
}

#[test]
fn an_answer_at_the_deadline_is_too_late() {
    let credentials = Handshake::respond(&identity(2), &[7; 32]);
    assert_eq!(waiting(None).finish(&credentials, 100), Err(HandshakeError::Timeout));
    assert_eq!(waiting(None).finish(&credentials, 500), Err(HandshakeError::Timeout));
    // lateness is told before anything else
    let garbage = Credentials { version: 9, public_key: [0; 32], signature: [0; 64] };
    assert_eq!(waiting(None).finish(&garbage, 100), Err(HandshakeError::Timeout));
    assert_eq!(waiting(None).finish(&garbage, 99), Err(HandshakeError::UnsupportedVersion));
}

#[test]
fn bytes_that_are_no_key_authenticate_nobody() {
    // 0x02 followed by zeros is not the encoding of a point of the curve
    let mut public_key = [0u8; 32];
    public_key[0] = 2;
    let credentials = Credentials { version: PROTOCOL_VERSION, public_key, signature: [0; 64] };
    assert_eq!(waiting(None).finish(&credentials, 10), Err(HandshakeError::SignatureMismatch));
}

#[test]
fn protocols_are_told_by_their_identifiers() {
    assert_eq!(Protocol::from_id(b"/overlay/handshake/1"), Some(Protocol::Handshake));
    assert_eq!(Protocol::from_id(b"/overlay/discovery/1"), Some(Protocol::Discovery));
    assert_eq!(Protocol::from_id(b"/overlay/gossip/1"), Some(Protocol::Gossip));
    assert_eq!(Protocol::from_id(b"/overlay/dht/1"), Some(Protocol::Dht));
    assert_eq!(Protocol::from_id(b"/overlay/dht/2"), None);
    assert_eq!(Protocol::from_id(b"/overlay/dht/"), None);
    assert_eq!(Protocol::from_id(b""), None);
    for p in [Protocol::Handshake, Protocol::Discovery, Protocol::Gossip, Protocol::Dht] {
        assert_eq!(Protocol::from_id(p.id().as_bytes()), Some(p));
    }
    assert_eq!(Protocol::Dht.id(), "/overlay/dht/1");
}

#[test]
fn a_handshake_concludes_from_what_was_found_of_the_credentials() {
    let peer = identity(2).id();
    let h = waiting(None);
    assert_eq!(h.conclude(1, true, peer, 99), Ok(peer));
    assert_eq!(h.conclude(1, true, peer, 100), Err(HandshakeError::Timeout));
    assert_eq!(h.conclude(7, true, peer, 99), Err(HandshakeError::UnsupportedVersion));
    assert_eq!(h.conclude(1, false, peer, 99), Err(HandshakeError::SignatureMismatch));
    assert_eq!(waiting(Some(2)).conclude(1, true, peer, 99), Ok(peer));
    assert_eq!(
        waiting(Some(3)).conclude(1, true, peer, 99),
        Err(HandshakeError::SignatureMismatch)
    );
    // the first reason in this order is the one told
    assert_eq!(h.conclude(7, false, peer, 100), Err(HandshakeError::Timeout));
    assert_eq!(h.conclude(7, false, peer, 99), Err(HandshakeError::UnsupportedVersion));
}
