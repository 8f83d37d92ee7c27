//! Topics and the signed messages that are published on them.

use crate::crypto::{
    digest, digest_array, ed25519_public, ed25519_signature, ed25519_verifies, ed25519_verify,
    id_of_key, peer_id_of_key, sha256, NodeIdentity,
};
use crate::id::PeerId;
use crate::seqs::copy_bytes;
use vstd::bytes::{spec_u64_to_le_bytes, u64_to_le_bytes};
use vstd::prelude::*;
use vstd::utf8::encode_utf8;

verus! {

/// A named channel on which messages are published.
#[derive(Debug, PartialEq, Eq, Hash)]
pub struct Topic {
    pub name: String,
}

impl View for Topic {
    type V = Seq<char>;

    open spec fn view(&self) -> Seq<char> {
        self.name@
    }
}

impl Clone for Topic {
    fn clone(&self) -> (copy: Topic)
        ensures
            copy@ == self@,
    {
        Topic { name: self.name.clone() }
    }
}

impl Topic {
    /// The topic of this name.
    pub fn new(name: &str) -> (topic: Topic)
        ensures
            topic@ == name@,
    {
        Topic { name: name.to_owned() }
    }

    /// Whether two topics have the same name.
    pub fn same(&self, other: &Topic) -> (r: bool)
        ensures
            r == (self@ == other@),
    {
        self.name == other.name
    }
}

/// The identifier of a message: a digest of its sender, sequence number
/// and payload.
#[derive(Clone, Copy, Debug, PartialEq, Eq, Hash)]
pub struct MessageId {
    pub bytes: [u8; 32],
}

impl MessageId {
    /// Whether two identifiers are equal.
    pub fn same(&self, other: &MessageId) -> (r: bool)
        ensures
            r == (*self == *other),
    {
        let mut i: usize = 0;
        while i < 32
            invariant
                i <= 32,
                forall|j: int| 0 <= j < i ==> self.bytes[j] == other.bytes[j],
            decreases 32 - i,
        {
            if self.bytes[i] != other.bytes[i] {
                return false;
            }
            i += 1;
        }
        assert(self.bytes =~= other.bytes);
        true
    }
}

/// A message as it travels between peers.
#[derive(Debug, PartialEq, Eq)]
pub struct Message {
    pub id: MessageId,
    pub topic: Topic,
    pub payload: Vec<u8>,
    pub sender: PeerId,
    pub sender_key: [u8; 32],
    pub sequence: u64,
    pub signature: [u8; 64],
}

/// A message as mathematical values.
pub struct MessageView {
    pub id: MessageId,
    pub topic: Seq<char>,
    pub payload: Seq<u8>,
    pub sender: PeerId,
    pub sender_key: Seq<u8>,
    pub sequence: u64,
    pub signature: Seq<u8>,
}

impl View for Message {
    type V = MessageView;

    open spec fn view(&self) -> MessageView {
        MessageView {
            id: self.id,
            topic: self.topic@,
            payload: self.payload@,
            sender: self.sender,
            sender_key: self.sender_key@,
            sequence: self.sequence,
            signature: self.signature@,
        }
    }
}

impl Clone for Message {
    fn clone(&self) -> (copy: Message)
        ensures
            copy@ == self@,
    {
        Message {
            id: self.id,
            topic: self.topic.clone(),
            payload: copy_bytes(self.payload.as_slice()),
            sender: self.sender,
            sender_key: self.sender_key,
            sequence: self.sequence,
            signature: self.signature,
        }
    }
}

/// The bytes that a message's signature covers: topic and payload, each
/// after its length, then the sender and the sequence number.
pub open spec fn signed_bytes(
    topic: Seq<char>,
    payload: Seq<u8>,
    sender: PeerId,
    sequence: u64,
) -> Seq<u8> {
    spec_u64_to_le_bytes(encode_utf8(topic).len() as u64) + encode_utf8(topic)
        + spec_u64_to_le_bytes(payload.len() as u64) + payload + sender.bytes@
        + spec_u64_to_le_bytes(sequence)
}

/// The bytes whose digest identifies a message.
pub open spec fn identified_bytes(sender: PeerId, sequence: u64, payload: Seq<u8>) -> Seq<u8> {
    sender.bytes@ + spec_u64_to_le_bytes(sequence) + payload
}

/// The identifier that a message with this sender, sequence number and
/// payload has.
pub open spec fn message_id_of(sender: PeerId, sequence: u64, payload: Seq<u8>) -> MessageId {
    MessageId { bytes: digest_array(sha256(identified_bytes(sender, sequence, payload))) }
}

/// A message is valid when its sender is the holder of the key it
/// carries, its identifier is the one that its content gives, and its
/// signature is accepted under that key.
pub open spec fn valid(m: MessageView) -> bool {
    matches(
        m,
        id_of_key(m.sender_key),
        message_id_of(m.sender, m.sequence, m.payload),
        ed25519_verifies(
            m.sender_key,
            signed_bytes(m.topic, m.payload, m.sender, m.sequence),
            m.signature,
        ),
    )
}

/// Whether a message is what it claims to be, given the holder of the
/// key it carries, the identifier that its content gives, and whether
/// its signature was accepted.
pub open spec fn matches(m: MessageView, holder: PeerId, id: MessageId, signed: bool) -> bool {
    m.sender == holder && m.id == id && signed
}

/// The message that the holder of `seed` makes of a payload on a topic
/// under a sequence number.
pub open spec fn signed_message(seed: Seq<u8>, topic: Seq<char>, payload: Seq<u8>, sequence: u64)
    -> MessageView {
    let sender_key = ed25519_public(seed);
    let sender = id_of_key(sender_key);
    MessageView {
        id: message_id_of(sender, sequence, payload),
        topic,
        payload,
        sender,
        sender_key,
        sequence,
        signature: ed25519_signature(seed, signed_bytes(topic, payload, sender, sequence)),
    }
}

/// Appends `data` to `out`.
pub fn append_bytes(out: &mut Vec<u8>, data: &[u8])
    ensures
        final(out)@ == old(out)@ + data@,
{
    let mut i: usize = 0;
    while i < data.len()
        invariant
            i <= data@.len(),
            out@ == old(out)@ + data@.take(i as int),
        decreases data@.len() - i,
    {
        out.push(data[i]);
        assert(data@.take(i + 1) =~= data@.take(i as int).push(data@[i as int]));
        i += 1;
    }
    assert(data@.take(data@.len() as int) =~= data@);
}

/// The bytes that the signature of a message covers.
pub fn encode_signed(topic: &Topic, payload: &Vec<u8>, sender: &PeerId, sequence: u64) -> (out:
    Vec<u8>)
    ensures
        out@ == signed_bytes(topic@, payload@, *sender, sequence),
{
    let name = topic.name.as_str().as_bytes();
    let mut out: Vec<u8> = Vec::new();
    let topic_len = u64_to_le_bytes(name.len() as u64);
    append_bytes(&mut out, topic_len.as_slice());
    append_bytes(&mut out, name);
    let payload_len = u64_to_le_bytes(payload.len() as u64);
    append_bytes(&mut out, payload_len.as_slice());
    append_bytes(&mut out, payload.as_slice());
    append_bytes(&mut out, sender.bytes.as_slice());
    let seq = u64_to_le_bytes(sequence);
    append_bytes(&mut out, seq.as_slice());
    assert(out@ =~= signed_bytes(topic@, payload@, *sender, sequence));
    out
}

/// The identifier of the message with this sender, sequence number and
/// payload.
pub fn message_id(sender: &PeerId, sequence: u64, payload: &Vec<u8>) -> (id: MessageId)
    ensures
        id == message_id_of(*sender, sequence, payload@),
{
    let mut bytes: Vec<u8> = Vec::new();
    append_bytes(&mut bytes, sender.bytes.as_slice());
    let seq = u64_to_le_bytes(sequence);
    append_bytes(&mut bytes, seq.as_slice());
    append_bytes(&mut bytes, payload.as_slice());
    assert(bytes@ =~= identified_bytes(*sender, sequence, payload@));
    MessageId { bytes: digest(bytes.as_slice()) }
}

impl Message {
    /// Wraps a payload in a message that `identity` signs.
    pub fn create(identity: &NodeIdentity, topic: Topic, payload: Vec<u8>, sequence: u64) -> (m:
        Message)
        ensures
            m@ == signed_message(identity.spec_seed(), topic@, payload@, sequence),
            m@.sender == identity.spec_id(),
            valid(m@),
    {
        let sender = identity.id();
        let sender_key = identity.public_key();
        let id = message_id(&sender, sequence, &payload);
        let covered = encode_signed(&topic, &payload, &sender, sequence);
        let signature = identity.sign(covered.as_slice());
        Message { id, topic, payload, sender, sender_key, sequence, signature }
    }

    /// Whether the message is what it claims to be, given the holder of
    /// the key it carries, the identifier that its content gives, and
    /// whether its signature was accepted.
    pub fn check(&self, holder: &PeerId, id: &MessageId, signed: bool) -> (ok: bool)
        ensures
            ok == matches(self@, *holder, *id, signed),
    {
        self.sender.same(holder) && self.id.same(id) && signed
    }

    /// Whether the message is valid.
    pub fn verify(&self) -> (ok: bool)
        ensures
            ok == valid(self@),
    {
        let holder = peer_id_of_key(&self.sender_key);
        let id = message_id(&self.sender, self.sequence, &self.payload);
        let covered = encode_signed(&self.topic, &self.payload, &self.sender, self.sequence);
        let signed = ed25519_verify(&self.sender_key, covered.as_slice(), &self.signature);
        self.check(&holder, &id, signed)
    }
}

} // verus!
