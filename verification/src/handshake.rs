//! Authentication of a peer when a connection is set up: each side
//! proves with a signature over the other's challenge that it holds the
//! secret key of the identity it claims.

use crate::crypto::{ed25519_public, ed25519_signature, ed25519_verifies, ed25519_verify,
    id_of_key, peer_id_of_key, NodeIdentity};
use crate::id::PeerId;
use crate::seqs::same_bytes;
use vstd::prelude::*;
use vstd::utf8::{encode_utf8, is_ascii_chars, is_ascii_chars_encode_utf8};

verus! {

/// The version of the handshake that this node speaks.
pub const PROTOCOL_VERSION: u32 = 1;

/// Why a handshake failed. The connection is dropped and nothing of it
/// is kept.
#[derive(Clone, Copy, Debug, PartialEq, Eq, Structural)]
pub enum HandshakeError {
    /// The peer's signature does not fit its key, or its key does not
    /// fit the identifier that was expected.
    SignatureMismatch,
    /// The peer speaks another version.
    UnsupportedVersion,
    /// The peer did not answer in time.
    Timeout,
}

/// What a side sends to prove who it is.
#[derive(Clone, Copy, Debug, PartialEq, Eq)]
pub struct Credentials {
    pub version: u32,
    pub public_key: [u8; 32],
    /// Signature over the other side's challenge.
    pub signature: [u8; 64],
}

/// A handshake that waits for the peer's credentials.
#[derive(Clone, Copy, Debug, PartialEq, Eq)]
pub struct Handshake {
    /// The identifier that the peer is expected to have, if one is.
    pub hint: Option<PeerId>,
    /// The bytes that the peer has to sign.
    pub challenge: [u8; 32],
    /// The time at which the handshake is given up.
    pub deadline: u64,
}

/// How a handshake ends at `now` with the credentials that came.
pub open spec fn handshake_result(h: Handshake, c: Credentials, now: u64) -> Result<
    PeerId,
    HandshakeError,
> {
    conclusion(
        h,
        c.version,
        ed25519_verifies(c.public_key@, h.challenge@, c.signature@),
        id_of_key(c.public_key@),
        now,
    )
}

/// How a handshake ends at `now`, given the version that the peer
/// speaks, whether its signature over the challenge was accepted, and
/// the holder of the key that it sent.
pub open spec fn conclusion(h: Handshake, version: u32, signed: bool, holder: PeerId, now: u64)
    -> Result<PeerId, HandshakeError> {
    if now >= h.deadline {
        Err(HandshakeError::Timeout)
    } else if version != PROTOCOL_VERSION {
        Err(HandshakeError::UnsupportedVersion)
    } else if !signed {
        Err(HandshakeError::SignatureMismatch)
    } else if h.hint.is_some() && h.hint.unwrap() != holder {
        Err(HandshakeError::SignatureMismatch)
    } else {
        Ok(holder)
    }
}

/// The credentials with which the holder of `seed` answers `challenge`.
pub open spec fn credentials_of(seed: Seq<u8>, challenge: Seq<u8>, c: Credentials) -> bool {
    &&& c.version == PROTOCOL_VERSION
    &&& c.public_key@ == ed25519_public(seed)
    &&& c.signature@ == ed25519_signature(seed, challenge)
}

impl Handshake {
    /// The node's answer to a peer's challenge.
    pub fn respond(identity: &NodeIdentity, challenge: &[u8; 32]) -> (c: Credentials)
        ensures
            credentials_of(identity.spec_seed(), challenge@, c),
            ed25519_verifies(c.public_key@, challenge@, c.signature@),
            id_of_key(c.public_key@) == identity.spec_id(),
    {
        let public_key = identity.public_key();
        let own = identity.id();
        Credentials {
            version: PROTOCOL_VERSION,
            public_key,
            signature: identity.sign(challenge.as_slice()),
        }
    }

    /// Ends the handshake at `now` with the credentials that the peer
    /// sent: the peer's authenticated identifier, or why there is none.
    pub fn finish(&self, credentials: &Credentials, now: u64) -> (r: Result<PeerId, HandshakeError>)
        ensures
            r == handshake_result(*self, *credentials, now),
    {
        let signed = ed25519_verify(
            &credentials.public_key,
            self.challenge.as_slice(),
            &credentials.signature,
        );
        let holder = peer_id_of_key(&credentials.public_key);
        self.conclude(credentials.version, signed, holder, now)
    }

    /// Ends the handshake at `now`, given the version that the peer
    /// speaks, whether its signature over the challenge was accepted, and
    /// the holder of the key that it sent.
    pub fn conclude(&self, version: u32, signed: bool, holder: PeerId, now: u64) -> (r: Result<
        PeerId,
        HandshakeError,
    >)
        ensures
            r == conclusion(*self, version, signed, holder, now),
    {
        if now >= self.deadline {
            return Err(HandshakeError::Timeout);
        }
        if version != PROTOCOL_VERSION {
            return Err(HandshakeError::UnsupportedVersion);
        }
        if !signed {
            return Err(HandshakeError::SignatureMismatch);
        }
        match self.hint {
            Some(expected) => {
                if !expected.same(&holder) {
                    return Err(HandshakeError::SignatureMismatch);
                }
            },
            None => {},
        }
        Ok(holder)
    }
}

/// A peer that answers the challenge in time with its own key is
/// authenticated under its identifier, unless another was expected.
pub proof fn lemma_honest_peer_accepted(h: Handshake, c: Credentials, now: u64)
    ensures
        now < h.deadline && c.version == PROTOCOL_VERSION && ed25519_verifies(
            c.public_key@,
            h.challenge@,
            c.signature@,
        ) && (h.hint.is_none() || h.hint == Some(id_of_key(c.public_key@))) ==> handshake_result(
            h,
            c,
            now,
        ) == Ok::<PeerId, HandshakeError>(id_of_key(c.public_key@)),
{
}

/// No peer is authenticated whose signature is not accepted, nor under
/// an identifier other than that of its key.
pub proof fn lemma_authenticated(h: Handshake, c: Credentials, now: u64)
    ensures
        handshake_result(h, c, now) matches Ok(peer) ==> peer == id_of_key(c.public_key@)
            && ed25519_verifies(c.public_key@, h.challenge@, c.signature@) && now < h.deadline,
{
}

/// The protocols that share a connection.
#[derive(Clone, Copy, Debug, PartialEq, Eq, Structural)]
pub enum Protocol {
    /// The handshake that authenticates the two sides.
    Handshake,
    Discovery,
    Gossip,
    Dht,
}

/// The identifier by which a protocol is declared on the wire.
pub open spec fn protocol_name(protocol: Protocol) -> Seq<char> {
    match protocol {
        Protocol::Handshake => "/overlay/handshake/1"@,
        Protocol::Discovery => "/overlay/discovery/1"@,
        Protocol::Gossip => "/overlay/gossip/1"@,
        Protocol::Dht => "/overlay/dht/1"@,
    }
}

/// The protocol that the bytes of an identifier on the wire declare.
pub open spec fn protocol_named(id: Seq<u8>) -> Option<Protocol> {
    if id == encode_utf8(protocol_name(Protocol::Handshake)) {
        Some(Protocol::Handshake)
    } else if id == encode_utf8(protocol_name(Protocol::Discovery)) {
        Some(Protocol::Discovery)
    } else if id == encode_utf8(protocol_name(Protocol::Gossip)) {
        Some(Protocol::Gossip)
    } else if id == encode_utf8(protocol_name(Protocol::Dht)) {
        Some(Protocol::Dht)
    } else {
        None
    }
}

/// The identifiers of the protocols are plain text of at most twenty
/// letters, and no two protocols have the same.
pub proof fn lemma_protocol_names(protocol: Protocol)
    ensures
        protocol_named(encode_utf8(protocol_name(protocol))) == Some(protocol),
        encode_utf8(protocol_name(protocol)).len() <= 20,
{
    reveal_strlit("/overlay/handshake/1");
    reveal_strlit("/overlay/discovery/1");
    reveal_strlit("/overlay/gossip/1");
    reveal_strlit("/overlay/dht/1");
    let h = protocol_name(Protocol::Handshake);
    let d = protocol_name(Protocol::Discovery);
    let g = protocol_name(Protocol::Gossip);
    let t = protocol_name(Protocol::Dht);
    assert(is_ascii_chars(h) && is_ascii_chars(d) && is_ascii_chars(g) && is_ascii_chars(t));
    is_ascii_chars_encode_utf8(h);
    is_ascii_chars_encode_utf8(d);
    is_ascii_chars_encode_utf8(g);
    is_ascii_chars_encode_utf8(t);
    assert(h[9] == 'h' && d[9] == 'd');
    assert(encode_utf8(h)[9] != encode_utf8(d)[9]);
}

impl Protocol {
    /// The identifier by which the protocol is declared on the wire.
    pub fn id(&self) -> (id: &'static str)
        ensures
            id@ == protocol_name(*self),
    {
        match self {
            Protocol::Handshake => "/overlay/handshake/1",
            Protocol::Discovery => "/overlay/discovery/1",
            Protocol::Gossip => "/overlay/gossip/1",
            Protocol::Dht => "/overlay/dht/1",
        }
    }

    /// The protocol that `id` declares, by which an inbound message is
    /// handed to its behaviour.
    pub fn from_id(id: &[u8]) -> (protocol: Option<Protocol>)
        ensures
            protocol == protocol_named(id@),
    {
        if same_bytes(id, Protocol::Handshake.id().as_bytes()) {
            Some(Protocol::Handshake)
        } else if same_bytes(id, Protocol::Discovery.id().as_bytes()) {
            Some(Protocol::Discovery)
        } else if same_bytes(id, Protocol::Gossip.id().as_bytes()) {
            Some(Protocol::Gossip)
        } else if same_bytes(id, Protocol::Dht.id().as_bytes()) {
            Some(Protocol::Dht)
        } else {
            None
        }
    }
}

} // verus!
