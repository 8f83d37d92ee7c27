//! What happens to a node and what it does: one closed set of events
//! that the event loop hands in, and one of actions that it gets back.

use crate::discovery::{Announcement, AnnouncementView};
use crate::id::PeerId;
use crate::message::{Message, MessageView, Topic};
use crate::query::{Outcome, OutcomeView};
use crate::record::{Record, RecordView};
use vstd::prelude::*;

verus! {

/// The node's periodic timers.
#[derive(Clone, Copy, Debug, PartialEq, Eq, Structural)]
pub enum Timer {
    /// The next presence announcement.
    Broadcast,
    /// The next sweep of expired peers and records.
    Sweep,
    /// The next look at the operations under way.
    Queries,
}

/// Something that happened, as the event loop reports it.
#[derive(Debug, PartialEq, Eq)]
pub enum Event {
    /// A timer fired.
    Timer(Timer),
    /// A presence announcement was heard.
    Announcement(Announcement),
    /// The liveness check of `peer`, made for `candidate`, has ended.
    Liveness { peer: PeerId, candidate: PeerId, alive: bool },
    /// A peer sent a message of a topic.
    Gossip { from: PeerId, message: Message },
    /// A peer told of its subscription to a topic.
    PeerSubscribed { peer: PeerId, topic: Topic },
    /// A peer told of the end of its subscription to a topic.
    PeerUnsubscribed { peer: PeerId, topic: Topic },
    /// A connection to a peer was set up and the peer authenticated.
    Connected { peer: PeerId },
    /// A send to a peer was taken, if `accepted`, or refused because the
    /// peer's buffer was full.
    Sent { peer: PeerId, accepted: bool },
    /// The connection to a peer has ended.
    PeerGone(PeerId),
    /// A peer asks for the peers closest to a target.
    FindNode { from: PeerId, request: u64, target: PeerId },
    /// A peer asks for the value under a key.
    GetValue { from: PeerId, request: u64, key: Vec<u8> },
    /// A peer asks the node to store a record.
    PutValue { from: PeerId, request: u64, record: Record },
    /// A peer answered a request of one of the node's operations.
    Response { query: u64, from: PeerId, closer: Vec<PeerId>, found: Option<Record> },
    /// A peer acknowledged a record of one of the node's operations.
    Stored { query: u64, from: PeerId },
    /// A peer that one of the node's operations asked cannot be reached.
    Unreachable { query: u64, peer: PeerId },
}

/// An event as mathematical values.
pub enum EventView {
    Timer(Timer),
    Announcement(AnnouncementView),
    Liveness { peer: PeerId, candidate: PeerId, alive: bool },
    Gossip { from: PeerId, message: MessageView },
    PeerSubscribed { peer: PeerId, topic: Seq<char> },
    PeerUnsubscribed { peer: PeerId, topic: Seq<char> },
    Connected { peer: PeerId },
    Sent { peer: PeerId, accepted: bool },
    PeerGone(PeerId),
    FindNode { from: PeerId, request: u64, target: PeerId },
    GetValue { from: PeerId, request: u64, key: Seq<u8> },
    PutValue { from: PeerId, request: u64, record: RecordView },
    Response { query: u64, from: PeerId, closer: Seq<PeerId>, found: Option<RecordView> },
    Stored { query: u64, from: PeerId },
    Unreachable { query: u64, peer: PeerId },
}

impl View for Event {
    type V = EventView;

    open spec fn view(&self) -> EventView {
        match self {
            Event::Timer(timer) => EventView::Timer(*timer),
            Event::Announcement(ann) => EventView::Announcement(ann@),
            Event::Liveness { peer, candidate, alive } => EventView::Liveness {
                peer: *peer,
                candidate: *candidate,
                alive: *alive,
            },
            Event::Gossip { from, message } => EventView::Gossip { from: *from, message: message@ },
            Event::PeerSubscribed { peer, topic } => EventView::PeerSubscribed {
                peer: *peer,
                topic: topic@,
            },
            Event::PeerUnsubscribed { peer, topic } => EventView::PeerUnsubscribed {
                peer: *peer,
                topic: topic@,
            },
            Event::Connected { peer } => EventView::Connected { peer: *peer },
            Event::Sent { peer, accepted } => EventView::Sent { peer: *peer, accepted: *accepted },
            Event::PeerGone(peer) => EventView::PeerGone(*peer),
            Event::FindNode { from, request, target } => EventView::FindNode {
                from: *from,
                request: *request,
                target: *target,
            },
            Event::GetValue { from, request, key } => EventView::GetValue {
                from: *from,
                request: *request,
                key: key@,
            },
            Event::PutValue { from, request, record } => EventView::PutValue {
                from: *from,
                request: *request,
                record: record@,
            },
            Event::Response { query, from, closer, found } => EventView::Response {
                query: *query,
                from: *from,
                closer: closer@,
                found: record_view(*found),
            },
            Event::Stored { query, from } => EventView::Stored { query: *query, from: *from },
            Event::Unreachable { query, peer } => EventView::Unreachable {
                query: *query,
                peer: *peer,
            },
        }
    }
}

/// Something for the event loop to do.
#[derive(Debug, PartialEq, Eq)]
pub enum Action {
    /// Arm a timer to fire at a time.
    Schedule { timer: Timer, at: u64 },
    /// Broadcast the node's presence on the local network.
    Broadcast(Announcement),
    /// Open a connection to a peer that was discovered.
    Dial { peer: PeerId },
    /// Close the connection to a peer.
    Drop { peer: PeerId },
    /// Tell a peer that the node is subscribed to a topic, or is no
    /// longer.
    Tell { peer: PeerId, topic: Topic, subscribed: bool },
    /// Tell the layers above that a peer has expired.
    PeerExpired(PeerId),
    /// Check whether `peer` is alive, and report it with `candidate`.
    Ping { peer: PeerId, candidate: PeerId },
    /// Deliver the message to the local subscribers, if `deliver`, and
    /// send it to the peers named.
    Gossip { message: Message, deliver: bool, peers: Vec<PeerId> },
    /// Ask the peers named for the peers closest to `target`.
    AskPeers { query: u64, peers: Vec<PeerId>, target: PeerId },
    /// Ask the peers named for the value under `key`.
    AskValue { query: u64, peers: Vec<PeerId>, key: Vec<u8> },
    /// Ask the peers named to store the record.
    AskStore { query: u64, peers: Vec<PeerId>, record: Record },
    /// Answer a peer's request with the closest peers known.
    ReplyPeers { to: PeerId, request: u64, closer: Vec<PeerId> },
    /// Answer a peer's request with the closest peers known and the
    /// record held.
    ReplyValue { to: PeerId, request: u64, closer: Vec<PeerId>, found: Option<Record> },
    /// Answer a peer's request with whether its record was stored.
    ReplyStored { to: PeerId, request: u64, stored: bool },
    /// Report how an operation ended.
    Finished { query: u64, outcome: Outcome },
}

/// An action as mathematical values.
pub enum ActionView {
    Schedule { timer: Timer, at: u64 },
    Broadcast(AnnouncementView),
    Dial { peer: PeerId },
    Drop { peer: PeerId },
    Tell { peer: PeerId, topic: Seq<char>, subscribed: bool },
    PeerExpired(PeerId),
    Ping { peer: PeerId, candidate: PeerId },
    Gossip { message: MessageView, deliver: bool, peers: Seq<PeerId> },
    AskPeers { query: u64, peers: Seq<PeerId>, target: PeerId },
    AskValue { query: u64, peers: Seq<PeerId>, key: Seq<u8> },
    AskStore { query: u64, peers: Seq<PeerId>, record: RecordView },
    ReplyPeers { to: PeerId, request: u64, closer: Seq<PeerId> },
    ReplyValue { to: PeerId, request: u64, closer: Seq<PeerId>, found: Option<RecordView> },
    ReplyStored { to: PeerId, request: u64, stored: bool },
    Finished { query: u64, outcome: OutcomeView },
}

/// The view of a record that may be there.
pub open spec fn record_view(record: Option<Record>) -> Option<RecordView> {
    match record {
        Some(r) => Some(r@),
        None => None,
    }
}

impl View for Action {
    type V = ActionView;

    open spec fn view(&self) -> ActionView {
        match self {
            Action::Schedule { timer, at } => ActionView::Schedule { timer: *timer, at: *at },
            Action::Broadcast(ann) => ActionView::Broadcast(ann@),
            Action::Dial { peer } => ActionView::Dial { peer: *peer },
            Action::Drop { peer } => ActionView::Drop { peer: *peer },
            Action::Tell { peer, topic, subscribed } => ActionView::Tell {
                peer: *peer,
                topic: topic@,
                subscribed: *subscribed,
            },
            Action::PeerExpired(peer) => ActionView::PeerExpired(*peer),
            Action::Ping { peer, candidate } => ActionView::Ping {
                peer: *peer,
                candidate: *candidate,
            },
            Action::Gossip { message, deliver, peers } => ActionView::Gossip {
                message: message@,
                deliver: *deliver,
                peers: peers@,
            },
            Action::AskPeers { query, peers, target } => ActionView::AskPeers {
                query: *query,
                peers: peers@,
                target: *target,
            },
            Action::AskValue { query, peers, key } => ActionView::AskValue {
                query: *query,
                peers: peers@,
                key: key@,
            },
            Action::AskStore { query, peers, record } => ActionView::AskStore {
                query: *query,
                peers: peers@,
                record: record@,
            },
            Action::ReplyPeers { to, request, closer } => ActionView::ReplyPeers {
                to: *to,
                request: *request,
                closer: closer@,
            },
            Action::ReplyValue { to, request, closer, found } => ActionView::ReplyValue {
                to: *to,
                request: *request,
                closer: closer@,
                found: record_view(*found),
            },
            Action::ReplyStored { to, request, stored } => ActionView::ReplyStored {
                to: *to,
                request: *request,
                stored: *stored,
            },
            Action::Finished { query, outcome } => ActionView::Finished {
                query: *query,
                outcome: outcome@,
            },
        }
    }
}

/// The views of a sequence of actions.
pub open spec fn action_views(actions: Seq<Action>) -> Seq<ActionView> {
    Seq::new(actions.len(), |i: int| actions[i]@)
}

} // verus!
