//! Digests and signatures, and the node's long-term identity.

use crate::id::PeerId;
use ed25519_dalek::Signer;
use ed25519_dalek::Verifier;
use sha2::Digest;
use vstd::prelude::*;

verus! {

/// The SHA-256 digest of a byte string.
pub uninterp spec fn sha256(data: Seq<u8>) -> Seq<u8>;

/// The Ed25519 public key that belongs to a 32-byte secret seed.
pub uninterp spec fn ed25519_public(seed: Seq<u8>) -> Seq<u8>;

/// The Ed25519 signature that a secret seed gives to a message.
pub uninterp spec fn ed25519_signature(seed: Seq<u8>, message: Seq<u8>) -> Seq<u8>;

/// Whether a 64-byte signature is accepted for a message under a public key.
pub uninterp spec fn ed25519_verifies(public: Seq<u8>, message: Seq<u8>, signature: Seq<u8>) -> bool;

/// Calls `sha2::Sha256::digest` on the data; the 32 bytes that it gives are
/// taken to be `sha256` of the data.
#[verifier::external_body]
pub(crate) fn sha256_digest(data: &[u8]) -> (out: [u8; 32])
    ensures
        out@ == sha256(data@),
{
    sha2::Sha256::digest(data).into()
}

/// Calls `ed25519_dalek::SigningKey::from_bytes` on the seed and reads the
/// verifying key that it derived; its bytes are taken to be
/// `ed25519_public` of the seed.
#[verifier::external_body]
pub(crate) fn ed25519_public_key(seed: &[u8; 32]) -> (out: [u8; 32])
    ensures
        out@ == ed25519_public(seed@),
{
    ed25519_dalek::SigningKey::from_bytes(seed).verifying_key().to_bytes()
}

/// Calls `ed25519_dalek::SigningKey::sign` with the key made from the seed.
/// The signature is taken to be `ed25519_signature` of seed and message,
/// and to be accepted under the seed's public key, as the crate says of
/// every signature that a key makes: whoever has the public half can
/// verify it.
#[verifier::external_body]
pub(crate) fn ed25519_sign(seed: &[u8; 32], message: &[u8]) -> (out: [u8; 64])
    ensures
        out@ == ed25519_signature(seed@, message@),
        ed25519_verifies(ed25519_public(seed@), message@, out@),
{
    ed25519_dalek::SigningKey::from_bytes(seed).sign(message).to_bytes()
}

/// Calls `ed25519_dalek::VerifyingKey::verify` with the key decoded by
/// `VerifyingKey::from_bytes`; bytes that decode to no key verify nothing.
/// The answer is taken to be `ed25519_verifies` of the three byte strings.
#[verifier::external_body]
pub(crate) fn ed25519_verify(public: &[u8; 32], message: &[u8], signature: &[u8; 64]) -> (ok: bool)
    ensures
        ok == ed25519_verifies(public@, message@, signature@),
{
    match ed25519_dalek::VerifyingKey::from_bytes(public) {
        Ok(key) => key.verify(message, &ed25519_dalek::Signature::from_bytes(signature)).is_ok(),
        Err(_) => false,
    }
}

/// The array that holds the 32 bytes of a digest.
pub open spec fn digest_array(digest: Seq<u8>) -> [u8; 32] {
    choose|b: [u8; 32]| b@ == digest
}

/// The identifier that a digest of 32 bytes spells.
pub open spec fn id_of_digest(digest: Seq<u8>) -> PeerId {
    PeerId { bytes: digest_array(digest) }
}

/// The identifier of the holder of a public key: the key's digest.
pub open spec fn id_of_key(public: Seq<u8>) -> PeerId {
    id_of_digest(sha256(public))
}

/// The place of a record key in the identifier space: the key's digest.
pub open spec fn id_of_content(key: Seq<u8>) -> PeerId {
    id_of_digest(sha256(key))
}

/// An array is the only one with its bytes.
pub proof fn lemma_digest_array(bytes: [u8; 32])
    ensures
        digest_array(bytes@) == bytes,
{
    let c = choose|b: [u8; 32]| b@ == bytes@;
    assert(c@ == bytes@);
    assert(c =~= bytes);
}

/// The SHA-256 digest of `data`.
pub fn digest(data: &[u8]) -> (out: [u8; 32])
    ensures
        out == digest_array(sha256(data@)),
        out@ == sha256(data@),
{
    let out = sha256_digest(data);
    proof {
        lemma_digest_array(out);
    }
    out
}

/// Identifier of the holder of `public`.
pub fn peer_id_of_key(public: &[u8; 32]) -> (id: PeerId)
    ensures
        id == id_of_key(public@),
{
    PeerId { bytes: digest(public.as_slice()) }
}

/// Identifier under which a record key is placed.
pub fn content_id(key: &[u8]) -> (id: PeerId)
    ensures
        id == id_of_content(key@),
{
    PeerId { bytes: digest(key) }
}

/// The node's long-term keypair with the identifier derived from it.
/// It is made once and never changes.
pub struct NodeIdentity {
    seed: [u8; 32],
    public: [u8; 32],
    id: PeerId,
}

impl NodeIdentity {
    /// The public key belongs to the seed, and the identifier to the key.
    #[verifier::type_invariant]
    pub closed spec fn wf(&self) -> bool {
        &&& self.public@ == ed25519_public(self.seed@)
        &&& self.id == id_of_key(self.public@)
    }

    /// The secret bytes that the identity was made of.
    pub closed spec fn spec_seed(&self) -> Seq<u8> {
        self.seed@
    }

    /// The public key.
    pub closed spec fn spec_public(&self) -> Seq<u8> {
        self.public@
    }

    /// The identifier.
    pub closed spec fn spec_id(&self) -> PeerId {
        self.id
    }

    /// The identity that belongs to 32 secret bytes, which the caller has
    /// drawn from its entropy source.
    pub fn from_seed(seed: [u8; 32]) -> (identity: NodeIdentity)
        ensures
            identity.spec_seed() == seed@,
            identity.spec_public() == ed25519_public(seed@),
            identity.spec_id() == id_of_key(ed25519_public(seed@)),
    {
        let public = ed25519_public_key(&seed);
        let id = peer_id_of_key(&public);
        NodeIdentity { seed, public, id }
    }

    /// The node's identifier: the digest of its public key.
    pub fn id(&self) -> (id: PeerId)
        ensures
            id == self.spec_id(),
            id == id_of_key(self.spec_public()),
    {
        proof {
            use_type_invariant(self);
        }
        self.id
    }

    /// The public key, which belongs to the secret seed.
    pub fn public_key(&self) -> (key: [u8; 32])
        ensures
            key@ == self.spec_public(),
            key@ == ed25519_public(self.spec_seed()),
    {
        proof {
            use_type_invariant(self);
        }
        self.public
    }

    /// Signs a message with the secret key.
    pub fn sign(&self, message: &[u8]) -> (signature: [u8; 64])
        ensures
            signature@ == ed25519_signature(self.spec_seed(), message@),
            ed25519_verifies(self.spec_public(), message@, signature@),
    {
        proof {
            use_type_invariant(self);
        }
        ed25519_sign(&self.seed, message)
    }
}

} // verus!
