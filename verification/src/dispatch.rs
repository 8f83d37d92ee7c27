//! Between the wire and the node: which event a frame that came in
//! stands for, and which frame an action sends to whom.

use crate::event::{Action, ActionView, Event, EventView};
use crate::handshake::{lemma_protocol_names, protocol_name, protocol_named, Credentials, Protocol};
use crate::id::PeerId;
use crate::message::append_bytes;
use crate::peers::copy_peers;
use crate::seqs::copy_bytes;
use crate::wire::{decode, encode, fits, lemma_bytes_round, lemma_frame_round, parse_bytes,
    parse_frame, put_bytes, ser_bytes, ser_frame, take_bytes, Frame, FrameView};
use vstd::prelude::*;
use vstd::slice::slice_subrange;
use vstd::utf8::encode_utf8;

verus! {

/// What a frame that came in asks for.
#[derive(Debug, PartialEq, Eq)]
pub enum Inbound {
    /// An event for the node.
    Event(Event),
    /// A frame to send back at once.
    Reply(Frame),
    /// The answer to a liveness check.
    Alive { query: u64 },
    /// A challenge to sign.
    Challenge { nonce: [u8; 32] },
    /// The credentials with which a handshake ends.
    Credentials(Credentials),
    /// Nothing.
    Ignored,
}

/// What a frame asks for, as mathematical values.
pub enum InboundView {
    Event(EventView),
    Reply(FrameView),
    Alive { query: u64 },
    Challenge { nonce: Seq<u8> },
    Credentials { version: u32, public_key: Seq<u8>, signature: Seq<u8> },
    Ignored,
}

impl View for Inbound {
    type V = InboundView;

    open spec fn view(&self) -> InboundView {
        match self {
            Inbound::Event(e) => InboundView::Event(e@),
            Inbound::Reply(f) => InboundView::Reply(f@),
            Inbound::Alive { query } => InboundView::Alive { query: *query },
            Inbound::Challenge { nonce } => InboundView::Challenge { nonce: nonce@ },
            Inbound::Credentials(c) => InboundView::Credentials {
                version: c.version,
                public_key: c.public_key@,
                signature: c.signature@,
            },
            Inbound::Ignored => InboundView::Ignored,
        }
    }
}

/// What the frame `frame` asks for when it comes from the peer `from`.
pub open spec fn inbound_of(from: PeerId, frame: FrameView) -> InboundView {
    match frame {
        FrameView::Announce(a) => InboundView::Event(EventView::Announcement(a)),
        FrameView::Publish(message) => InboundView::Event(EventView::Gossip { from, message }),
        FrameView::Subscribe(topic) => InboundView::Event(
            EventView::PeerSubscribed { peer: from, topic },
        ),
        FrameView::Unsubscribe(topic) => InboundView::Event(
            EventView::PeerUnsubscribed { peer: from, topic },
        ),
        FrameView::FindNode { query, target } => InboundView::Event(
            EventView::FindNode { from, request: query, target },
        ),
        FrameView::GetValue { query, key } => InboundView::Event(
            EventView::GetValue { from, request: query, key },
        ),
        FrameView::PutValue { query, record } => InboundView::Event(
            EventView::PutValue { from, request: query, record },
        ),
        FrameView::Peers { query, closer } => InboundView::Event(
            EventView::Response { query, from, closer, found: None },
        ),
        FrameView::Value { query, closer, found } => InboundView::Event(
            EventView::Response { query, from, closer, found },
        ),
        FrameView::Stored { query, stored } => if stored {
            InboundView::Event(EventView::Stored { query, from })
        } else {
            InboundView::Ignored
        },
        FrameView::Ping { query } => InboundView::Reply(FrameView::Pong { query }),
        FrameView::Pong { query } => InboundView::Alive { query },
        FrameView::Challenge { nonce } => InboundView::Challenge { nonce },
        FrameView::Credentials { version, public_key, signature } => InboundView::Credentials {
            version,
            public_key,
            signature,
        },
    }
}

/// Hands a frame that came from the peer `from` to the protocol it
/// belongs to.
pub fn inbound(from: PeerId, frame: Frame) -> (r: Inbound)
    ensures
        r@ == inbound_of(from, frame@),
{
    match frame {
        Frame::Announce(a) => Inbound::Event(Event::Announcement(a)),
        Frame::Publish(message) => Inbound::Event(Event::Gossip { from, message }),
        Frame::Subscribe(topic) => Inbound::Event(Event::PeerSubscribed { peer: from, topic }),
        Frame::Unsubscribe(topic) => Inbound::Event(Event::PeerUnsubscribed { peer: from, topic }),
        Frame::FindNode { query, target } => Inbound::Event(
            Event::FindNode { from, request: query, target },
        ),
        Frame::GetValue { query, key } => Inbound::Event(
            Event::GetValue { from, request: query, key },
        ),
        Frame::PutValue { query, record } => Inbound::Event(
            Event::PutValue { from, request: query, record },
        ),
        Frame::Peers { query, closer } => Inbound::Event(
            Event::Response { query, from, closer, found: None },
        ),
        Frame::Value { query, closer, found } => Inbound::Event(
            Event::Response { query, from, closer, found },
        ),
        Frame::Stored { query, stored } => {
            if stored {
                Inbound::Event(Event::Stored { query, from })
            } else {
                Inbound::Ignored
            }
        },
        Frame::Ping { query } => Inbound::Reply(Frame::Pong { query }),
        Frame::Pong { query } => Inbound::Alive { query },
        Frame::Challenge { nonce } => Inbound::Challenge { nonce },
        Frame::Credentials(c) => Inbound::Credentials(c),
    }
}

/// The protocol that a frame belongs to.
pub open spec fn protocol_of(frame: FrameView) -> Protocol {
    match frame {
        FrameView::Announce(_) => Protocol::Discovery,
        FrameView::Publish(_) => Protocol::Gossip,
        FrameView::Subscribe(_) => Protocol::Gossip,
        FrameView::Unsubscribe(_) => Protocol::Gossip,
        FrameView::Challenge { .. } => Protocol::Handshake,
        FrameView::Credentials { .. } => Protocol::Handshake,
        _ => Protocol::Dht,
    }
}

/// The protocol that a frame belongs to.
pub fn protocol(frame: &Frame) -> (p: Protocol)
    ensures
        p == protocol_of(frame@),
{
    match frame {
        Frame::Announce(_) => Protocol::Discovery,
        Frame::Publish(_) => Protocol::Gossip,
        Frame::Subscribe(_) => Protocol::Gossip,
        Frame::Unsubscribe(_) => Protocol::Gossip,
        Frame::Challenge { .. } => Protocol::Handshake,
        Frame::Credentials(_) => Protocol::Handshake,
        _ => Protocol::Dht,
    }
}

/// A frame as it is sent: the identifier of its protocol, then the
/// frame.
pub open spec fn sealed(frame: FrameView) -> Seq<u8> {
    ser_bytes(encode_utf8(protocol_name(protocol_of(frame)))) + ser_frame(frame)
}

/// The frame that was sent as `s`, if it is a frame of the protocol that
/// `s` declares.
pub open spec fn opened(s: Seq<u8>) -> Option<FrameView> {
    match parse_bytes(s) {
        Some((id, rest)) => match protocol_named(id) {
            Some(declared) => match parse_frame(rest) {
                Some(frame) => if protocol_of(frame) == declared {
                    Some(frame)
                } else {
                    None
                },
                None => None,
            },
            None => None,
        },
        None => None,
    }
}

/// Every frame arrives as it was sent.
pub proof fn lemma_sealed_opens(frame: FrameView)
    requires
        fits(frame),
    ensures
        opened(sealed(frame)) == Some(frame),
{
    let id = encode_utf8(protocol_name(protocol_of(frame)));
    lemma_protocol_names(protocol_of(frame));
    lemma_bytes_round(id, ser_frame(frame));
    lemma_frame_round(frame);
}

/// Writes a frame as it is sent.
pub fn seal(frame: &Frame) -> (out: Vec<u8>)
    ensures
        out@ == sealed(frame@),
{
    let mut out: Vec<u8> = Vec::new();
    put_bytes(&mut out, protocol(frame).id().as_bytes());
    let body = encode(frame);
    append_bytes(&mut out, body.as_slice());
    assert(out@ =~= sealed(frame@));
    out
}

/// Reads what was sent: the frame, if the bytes are those of a frame of
/// the protocol that they declare.
pub fn open(data: &[u8]) -> (frame: Option<Frame>)
    ensures
        match opened(data@) {
            Some(f) => frame.is_some() && frame.unwrap()@ == f,
            None => frame.is_none(),
        },
{
    assert(data@.skip(0) =~= data@);
    let (id, at) = match take_bytes(data, 0) {
        Some(r) => r,
        None => {
            return None;
        },
    };
    let declared = match Protocol::from_id(id) {
        Some(p) => p,
        None => {
            return None;
        },
    };
    let rest = slice_subrange(data, at, data.len());
    assert(rest@ =~= data@.skip(at as int));
    match decode(rest) {
        Some(frame) => {
            let actual = protocol(&frame);
            if same_protocol(actual, declared) {
                Some(frame)
            } else {
                None
            }
        },
        None => None,
    }
}

/// Whether two protocols are the same.
fn same_protocol(a: Protocol, b: Protocol) -> (r: bool)
    ensures
        r == (a == b),
{
    a == b
}

/// A frame to send, and to whom: to everyone on the local network, or to
/// the peers named.
#[derive(Debug, PartialEq, Eq)]
pub struct Outbound {
    pub broadcast: bool,
    pub to: Vec<PeerId>,
    pub frame: Frame,
}

/// A frame to send, as mathematical values.
pub struct OutboundView {
    pub broadcast: bool,
    pub to: Seq<PeerId>,
    pub frame: FrameView,
}

impl View for Outbound {
    type V = OutboundView;

    open spec fn view(&self) -> OutboundView {
        OutboundView { broadcast: self.broadcast, to: self.to@, frame: self.frame@ }
    }
}

/// What the action `action` sends, if anything.
pub open spec fn outbound_of(action: ActionView) -> Option<OutboundView> {
    match action {
        ActionView::Broadcast(a) => Some(
            OutboundView { broadcast: true, to: Seq::empty(), frame: FrameView::Announce(a) },
        ),
        ActionView::Gossip { message, deliver, peers } => Some(
            OutboundView { broadcast: false, to: peers, frame: FrameView::Publish(message) },
        ),
        ActionView::AskPeers { query, peers, target } => Some(
            OutboundView {
                broadcast: false,
                to: peers,
                frame: FrameView::FindNode { query, target },
            },
        ),
        ActionView::AskValue { query, peers, key } => Some(
            OutboundView { broadcast: false, to: peers, frame: FrameView::GetValue { query, key } },
        ),
        ActionView::AskStore { query, peers, record } => Some(
            OutboundView {
                broadcast: false,
                to: peers,
                frame: FrameView::PutValue { query, record },
            },
        ),
        ActionView::ReplyPeers { to, request, closer } => Some(
            OutboundView {
                broadcast: false,
                to: seq![to],
                frame: FrameView::Peers { query: request, closer },
            },
        ),
        ActionView::ReplyValue { to, request, closer, found } => Some(
            OutboundView {
                broadcast: false,
                to: seq![to],
                frame: FrameView::Value { query: request, closer, found },
            },
        ),
        ActionView::ReplyStored { to, request, stored } => Some(
            OutboundView {
                broadcast: false,
                to: seq![to],
                frame: FrameView::Stored { query: request, stored },
            },
        ),
        ActionView::Tell { peer, topic, subscribed } => Some(
            OutboundView {
                broadcast: false,
                to: seq![peer],
                frame: if subscribed {
                    FrameView::Subscribe(topic)
                } else {
                    FrameView::Unsubscribe(topic)
                },
            },
        ),
        _ => None,
    }
}

/// The list that holds `peer` alone.
fn only(peer: PeerId) -> (list: Vec<PeerId>)
    ensures
        list@ == seq![peer],
{
    let mut list: Vec<PeerId> = Vec::new();
    list.push(peer);
    list
}

/// The frame that an action sends, and to whom.
pub fn outbound(action: &Action) -> (r: Option<Outbound>)
    ensures
        match outbound_of(action@) {
            Some(o) => r.is_some() && r.unwrap()@ == o,
            None => r.is_none(),
        },
{
    match action {
        Action::Broadcast(a) => Some(
            Outbound { broadcast: true, to: Vec::new(), frame: Frame::Announce(a.clone()) },
        ),
        Action::Gossip { message, deliver, peers } => Some(
            Outbound {
                broadcast: false,
                to: copy_peers(peers),
                frame: Frame::Publish(message.clone()),
            },
        ),
        Action::AskPeers { query, peers, target } => Some(
            Outbound {
                broadcast: false,
                to: copy_peers(peers),
                frame: Frame::FindNode { query: *query, target: *target },
            },
        ),
        Action::AskValue { query, peers, key } => Some(
            Outbound {
                broadcast: false,
                to: copy_peers(peers),
                frame: Frame::GetValue { query: *query, key: copy_bytes(key.as_slice()) },
            },
        ),
        Action::AskStore { query, peers, record } => Some(
            Outbound {
                broadcast: false,
                to: copy_peers(peers),
                frame: Frame::PutValue { query: *query, record: record.clone() },
            },
        ),
        Action::ReplyPeers { to, request, closer } => Some(
            Outbound {
                broadcast: false,
                to: only(*to),
                frame: Frame::Peers { query: *request, closer: copy_peers(closer) },
            },
        ),
        Action::ReplyValue { to, request, closer, found } => {
            let found = match found {
                Some(r) => Some(r.clone()),
                None => None,
            };
            Some(
                Outbound {
                    broadcast: false,
                    to: only(*to),
                    frame: Frame::Value { query: *request, closer: copy_peers(closer), found },
                },
            )
        },
        Action::ReplyStored { to, request, stored } => Some(
            Outbound {
                broadcast: false,
                to: only(*to),
                frame: Frame::Stored { query: *request, stored: *stored },
            },
        ),
        Action::Tell { peer, topic, subscribed } => Some(
            Outbound {
                broadcast: false,
                to: only(*peer),
                frame: if *subscribed {
                    Frame::Subscribe(topic.clone())
                } else {
                    Frame::Unsubscribe(topic.clone())
                },
            },
        ),
        _ => None,
    }
}

} // verus!
