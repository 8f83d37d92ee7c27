//! The node: its identity and the three protocols' states in one place,
//! with one handler for each kind of event. A handler changes the
//! state and names the actions that the event loop is to perform.

use crate::closest::{closest_among, k_closest};
use crate::connection::{after_close, after_open, after_send, connected, peers_of, to_be_dropped,
    Connection, Connections};
use crate::crypto::{content_id, id_of_content, NodeIdentity};
use crate::discovery::{copy_addrs, Address, Announcement, AnnouncementView, Discovery,
    DiscoveryEvent, DiscoveryView};
use crate::event::{action_views, record_view, Action, ActionView, Event, EventView, Timer};
use crate::gossip::{Gossip, GossipView, Receipt, ReceiptView};
use crate::id::{distance, PeerId};
use crate::message::{signed_message, Message, MessageView, Topic};
use crate::peers::{other_than, peers_other_than};
use crate::query::{PendingQuery, QueryKind, QueryView, Stage, Step, StepView};
use crate::record::{after_put, holds_at, lookup, put_outcome, PutOutcome, Record, RecordStore,
    RecordView};
use crate::routing::{InsertOutcome, RoutingTable, RoutingView};
use crate::seqs::{copy_bytes, lemma_filter_none, lemma_filter_step};
use vstd::prelude::*;

verus! {

/// The numbers that a node runs with. Times are in seconds.
#[derive(Clone, Copy, Debug, PartialEq, Eq, Structural)]
pub struct Settings {
    /// Time between two presence announcements.
    pub interval: u64,
    /// Time to live of an announcement, in intervals.
    pub tolerance: u64,
    /// Number of message identifiers remembered.
    pub seen_capacity: usize,
    /// Number of peers in a bucket, and of closest peers sought.
    pub bucket_size: usize,
    /// Number of peers asked in one round of an operation.
    pub fanout: usize,
    /// Number of rounds of an operation.
    pub hop_limit: u32,
    /// Time that an operation may take.
    pub query_timeout: u64,
    /// Time for which an announced record holds.
    pub record_ttl: u64,
    /// Number of refused sends in a row after which a peer is dropped.
    pub refusal_limit: u32,
}

impl Settings {
    /// Whether a node can be made with these numbers.
    pub open spec fn usable(self) -> bool {
        &&& self.interval > 0
        &&& self.tolerance >= 2
        &&& self.interval * self.tolerance <= u64::MAX
        &&& self.seen_capacity > 0
        &&& self.bucket_size > 0
        &&& self.fanout > 0
    }

    /// The numbers that a node runs with unless told otherwise.
    pub fn standard() -> (settings: Settings)
        ensures
            settings.usable(),
            settings == (Settings {
                interval: 5,
                tolerance: 3,
                seen_capacity: 1024,
                bucket_size: 20,
                fanout: 3,
                hop_limit: 8,
                query_timeout: 60,
                record_ttl: 129600,
                refusal_limit: 8,
            }),
    {
        Settings {
            interval: 5,
            tolerance: 3,
            seen_capacity: 1024,
            bucket_size: 20,
            fanout: 3,
            hop_limit: 8,
            query_timeout: 60,
            record_ttl: 129600,
            refusal_limit: 8,
        }
    }
}

/// An operation under way, under the number by which it is known.
pub struct QueryEntry {
    pub id: u64,
    pub query: PendingQuery,
    /// The record that a put is to store.
    pub record: Option<Record>,
}

/// An operation under way as mathematical values.
pub struct EntryView {
    pub id: u64,
    pub query: QueryView,
    pub record: Option<RecordView>,
}

impl View for QueryEntry {
    type V = EntryView;

    open spec fn view(&self) -> EntryView {
        EntryView {
            id: self.id,
            query: self.query@,
            record: match self.record {
                Some(r) => Some(r@),
                None => None,
            },
        }
    }
}

/// The views of a sequence of operations.
pub open spec fn entry_views(entries: Seq<QueryEntry>) -> Seq<EntryView> {
    Seq::new(entries.len(), |i: int| entries[i]@)
}

/// The actions that follow from offering `candidate` to the routing
/// table: a liveness check of the peer that stands in its way, if one
/// does.
pub open spec fn ping_for(outcome: InsertOutcome, candidate: PeerId) -> Seq<ActionView> {
    match outcome {
        InsertOutcome::Full { oldest } => seq![ActionView::Ping { peer: oldest, candidate }],
        _ => Seq::empty(),
    }
}

/// The node as mathematical values.
pub struct NodeView {
    pub id: PeerId,
    /// The secret bytes of the node's identity.
    pub seed: Seq<u8>,
    pub addrs: Seq<Address>,
    pub settings: Settings,
    pub discovery: DiscoveryView,
    pub gossip: GossipView,
    pub routing: RoutingView,
    pub store: Seq<RecordView>,
    pub queries: Seq<EntryView>,
    pub next_query: u64,
    /// The open connections.
    pub connections: Seq<Connection>,
}

impl NodeView {
    /// What holds of every node.
    pub open spec fn well_formed(self) -> bool {
        &&& self.discovery.local == self.id
        &&& self.gossip.local == self.id
        &&& self.routing.local == self.id
        &&& self.settings.bucket_size > 0
        &&& self.settings.fanout > 0
        &&& self.discovery.interval == self.settings.interval
        &&& forall|i: int|
            0 <= i < self.queries.len() ==> (#[trigger] self.queries[i]).query.local == self.id
                && self.queries[i].id < self.next_query
        &&& forall|i: int, j: int|
            0 <= i < self.queries.len() && 0 <= j < self.queries.len() && i != j ==> (
            #[trigger] self.queries[i]).id != (#[trigger] self.queries[j]).id
    }

    /// State and actions after discovery reported `event`: a peer that
    /// was discovered is dialled, made a target of gossip and offered to
    /// the routing table; one that was heard again is offered to the
    /// routing table; one that expired is no target of gossip any more.
    pub open spec fn inject(self, event: DiscoveryEvent) -> (NodeView, Seq<ActionView>) {
        match event {
            DiscoveryEvent::Discovered(peer) => (
                NodeView {
                    gossip: self.gossip.with_explicit(peer),
                    routing: self.routing.insert(peer).0,
                    ..self
                },
                seq![ActionView::Dial { peer }] + ping_for(self.routing.insert(peer).1, peer),
            ),
            DiscoveryEvent::Refreshed(peer) => (
                NodeView {
                    gossip: self.gossip.with_explicit(peer),
                    routing: self.routing.insert(peer).0,
                    ..self
                },
                ping_for(self.routing.insert(peer).1, peer),
            ),
            DiscoveryEvent::Expired(peer) => (
                NodeView { gossip: self.gossip.without_explicit(peer), ..self },
                seq![ActionView::PeerExpired(peer)],
            ),
            DiscoveryEvent::Ignored => (self, Seq::empty()),
        }
    }

    /// State and actions after an announcement was heard at `now`.
    pub open spec fn hear(self, ann: AnnouncementView, now: u64) -> (NodeView, Seq<ActionView>) {
        (NodeView { discovery: self.discovery.hear(ann, now), ..self }).inject(
            self.discovery.heard(ann, now),
        )
    }

    /// State and actions after the liveness check of `peer`, made for
    /// `candidate`, has ended.
    pub open spec fn settle(self, peer: PeerId, candidate: PeerId, alive: bool) -> (
        NodeView,
        Seq<ActionView>,
    ) {
        (
            NodeView { routing: self.routing.settle(candidate, peer, alive).0, ..self },
            ping_for(self.routing.settle(candidate, peer, alive).1, candidate),
        )
    }

    /// State and actions after `from` sent a message.
    pub open spec fn receive(self, from: PeerId, message: MessageView) -> (
        NodeView,
        Seq<ActionView>,
    ) {
        (
            NodeView { gossip: self.gossip.receive(from, message).0, ..self },
            match self.gossip.receive(from, message).1 {
                ReceiptView::Delivered { relay_to } => seq![
                    ActionView::Gossip { message, deliver: true, peers: relay_to },
                ],
                _ => Seq::empty(),
            },
        )
    }

    /// The message that the node makes of a payload on a topic.
    pub open spec fn sign(self, topic: Seq<char>, payload: Seq<u8>) -> MessageView {
        signed_message(self.seed, topic, payload, self.gossip.next_sequence)
    }

    /// State and actions after the node subscribed to `topic`: the peers
    /// it is connected to are told if that is new.
    pub open spec fn subscribe(self, topic: Seq<char>) -> (NodeView, Seq<ActionView>) {
        (
            NodeView { gossip: self.gossip.with_topic(topic), ..self },
            if self.gossip.topics.contains(topic) {
                Seq::empty()
            } else {
                tell_each(peers_of(self.connections), topic, true)
            },
        )
    }

    /// State and actions after the node ended its subscription to
    /// `topic`: the peers it is connected to are told if there was one.
    pub open spec fn unsubscribe(self, topic: Seq<char>) -> (NodeView, Seq<ActionView>) {
        (
            NodeView { gossip: self.gossip.without_topic(topic), ..self },
            if self.gossip.topics.contains(topic) {
                tell_each(peers_of(self.connections), topic, false)
            } else {
                Seq::empty()
            },
        )
    }

    /// State and actions after a connection to `peer` was set up: if it
    /// is new, the peer is told of the node's subscriptions.
    pub open spec fn connect(self, peer: PeerId) -> (NodeView, Seq<ActionView>) {
        (
            NodeView { connections: after_open(self.connections, peer), ..self },
            if connected(self.connections, peer) {
                Seq::empty()
            } else {
                tell_all(peer, self.gossip.topics)
            },
        )
    }

    /// State and actions after a send to `peer` was taken or refused: a
    /// peer that has refused too often is dropped, and is no target of
    /// gossip by subscription any more.
    pub open spec fn sent(self, peer: PeerId, accepted: bool) -> (NodeView, Seq<ActionView>) {
        if !accepted && to_be_dropped(self.connections, self.settings.refusal_limit, peer) {
            (
                NodeView {
                    connections: after_send(
                        self.connections,
                        self.settings.refusal_limit,
                        peer,
                        accepted,
                    ),
                    gossip: self.gossip.without_peer(peer),
                    ..self
                },
                seq![ActionView::Drop { peer }],
            )
        } else {
            (
                NodeView {
                    connections: after_send(
                        self.connections,
                        self.settings.refusal_limit,
                        peer,
                        accepted,
                    ),
                    ..self
                },
                Seq::empty(),
            )
        }
    }

    /// The state after the connection to `peer` has ended.
    pub open spec fn disconnect(self, peer: PeerId) -> NodeView {
        NodeView {
            connections: after_close(self.connections, peer),
            gossip: self.gossip.without_peer(peer),
            ..self
        }
    }

    /// State and actions after the node published the message `m`.
    pub open spec fn publish(self, m: MessageView) -> (NodeView, Seq<ActionView>) {
        (
            NodeView { gossip: self.gossip.publish(m.id), ..self },
            seq![
                ActionView::Gossip {
                    message: m,
                    deliver: self.gossip.topics.contains(m.topic),
                    peers: self.gossip.targets(m.topic, self.id),
                },
            ],
        )
    }

    /// The announcement that the node makes of itself.
    pub open spec fn presence(self) -> AnnouncementView {
        AnnouncementView { sender: self.id, addrs: self.addrs, ttl: self.discovery.ttl }
    }

    /// State and actions when the broadcast timer fired at `now`: if an
    /// announcement is due it is made, and the timer is armed for the
    /// next.
    pub open spec fn broadcast(self, now: u64) -> (NodeView, Seq<ActionView>) {
        (
            NodeView { discovery: self.discovery.poll(now), ..self },
            if self.discovery.due(now) {
                seq![
                    ActionView::Broadcast(self.presence()),
                    ActionView::Schedule {
                        timer: Timer::Broadcast,
                        at: self.discovery.poll(now).next_broadcast,
                    },
                ]
            } else {
                seq![
                    ActionView::Schedule {
                        timer: Timer::Broadcast,
                        at: self.discovery.next_broadcast,
                    },
                ]
            },
        )
    }

    /// State and actions when the sweep timer fired at `now`: the peers
    /// and records whose deadline has passed are removed, and the peers
    /// are reported and are targets of gossip no more.
    pub open spec fn sweep(self, now: u64) -> (NodeView, Seq<ActionView>) {
        (
            NodeView {
                discovery: self.discovery.sweep(now),
                gossip: without_all(self.gossip, self.discovery.gone(now)),
                store: self.store.filter(holds_at(now)),
                ..self
            },
            expiries(self.discovery.gone(now)),
        )
    }

    /// The closest peers that the node names to `asker` for `target`.
    pub open spec fn closer_to(self, target: PeerId, asker: PeerId) -> Seq<PeerId> {
        closest_among(
            self.routing.peers().filter(other_than(asker)),
            target,
            self.settings.bucket_size as nat,
        )
    }

    /// Whether the node is one of the closest peers that it knows to
    /// `target`: fewer peers than a bucket holds are closer.
    pub open spec fn responsible_for(self, target: PeerId) -> bool {
        self.routing.peers().filter(closer_than(target, self.id)).len() < self.settings.bucket_size
    }

    /// State and actions after `from` asked for the peers closest to
    /// `target`.
    pub open spec fn find_node(self, from: PeerId, request: u64, target: PeerId) -> (
        NodeView,
        Seq<ActionView>,
    ) {
        (
            NodeView { routing: self.routing.insert(from).0, ..self },
            seq![
                ActionView::ReplyPeers { to: from, request, closer: self.closer_to(target, from) },
            ] + ping_for(self.routing.insert(from).1, from),
        )
    }

    /// State and actions after `from` asked at `now` for the value under
    /// `key`.
    pub open spec fn get_value(self, from: PeerId, request: u64, key: Seq<u8>, now: u64) -> (
        NodeView,
        Seq<ActionView>,
    ) {
        (
            NodeView { routing: self.routing.insert(from).0, ..self },
            seq![
                ActionView::ReplyValue {
                    to: from,
                    request,
                    closer: self.closer_to(id_of_content(key), from),
                    found: lookup(self.store, key, now),
                },
            ] + ping_for(self.routing.insert(from).1, from),
        )
    }

    /// Whether the node stores the record `r` that it is asked at `now`
    /// to store.
    pub open spec fn stores(self, r: RecordView, now: u64) -> bool {
        self.responsible_for(id_of_content(r.key)) && (put_outcome(self.store, r, now)
            == PutOutcome::Stored || put_outcome(self.store, r, now) == PutOutcome::Replaced)
    }

    /// State and actions after `from` asked the node at `now` to store
    /// the record `r`.
    pub open spec fn put_value(self, from: PeerId, request: u64, r: RecordView, now: u64) -> (
        NodeView,
        Seq<ActionView>,
    ) {
        (
            NodeView {
                routing: self.routing.insert(from).0,
                store: if self.responsible_for(id_of_content(r.key)) {
                    after_put(self.store, r, now)
                } else {
                    self.store
                },
                ..self
            },
            seq![ActionView::ReplyStored { to: from, request, stored: self.stores(r, now) }]
                + ping_for(self.routing.insert(from).1, from),
        )
    }

    /// Position of the operation known by `id`, if there is one.
    pub open spec fn has_query(self, id: u64) -> bool {
        exists|i: int| 0 <= i < self.queries.len() && (#[trigger] self.queries[i]).id == id
    }

    /// Position of the operation known by `id`.
    pub open spec fn query_position(self, id: u64) -> int {
        choose|i: int| 0 <= i < self.queries.len() && (#[trigger] self.queries[i]).id == id
    }

    /// The node with another state of the operation at `index`.
    pub open spec fn with_query(self, index: int, query: QueryView) -> NodeView {
        NodeView {
            queries: self.queries.update(index, EntryView { query, ..self.queries[index] }),
            ..self
        }
    }

    /// State and actions after the operation at `index` was looked at at
    /// `now`: its next requests go out, and once it has ended it is
    /// reported and forgotten.
    pub open spec fn drive(self, index: int, now: u64) -> (NodeView, Seq<ActionView>) {
        if 0 <= index < self.queries.len() {
            let entry = self.queries[index];
            let after = entry.query.advance(now).0;
            match entry.query.advance(now).1 {
                StepView::Ask(batch) => (
                    self.with_query(index, after),
                    seq![ask_action(entry, batch)],
                ),
                StepView::Store(peers) => (
                    self.with_query(index, after),
                    match entry.record {
                        Some(record) => seq![
                            ActionView::AskStore { query: entry.id, peers, record },
                        ],
                        None => Seq::empty(),
                    },
                ),
                StepView::Wait => (self.with_query(index, after), Seq::empty()),
                StepView::Done(outcome) => (
                    NodeView { queries: self.queries.remove(index), ..self },
                    seq![ActionView::Finished { query: entry.id, outcome }],
                ),
                StepView::Closed => (
                    NodeView { queries: self.queries.remove(index), ..self },
                    Seq::empty(),
                ),
            }
        } else {
            (self, Seq::empty())
        }
    }

    /// State and actions after the first `count` operations were looked
    /// at at `now`, the last of them first.
    pub open spec fn poll(self, count: nat, now: u64) -> (NodeView, Seq<ActionView>)
        decreases count,
    {
        if count == 0 {
            (self, Seq::empty())
        } else {
            let first = self.drive(count - 1, now);
            let rest = first.0.poll((count - 1) as nat, now);
            (rest.0, first.1 + rest.1)
        }
    }

    /// The operation that the node starts at `now`.
    pub open spec fn new_query(
        self,
        kind: QueryKind,
        key: Seq<u8>,
        target: PeerId,
        quorum: nat,
        now: u64,
    ) -> QueryView {
        QueryView {
            local: self.id,
            kind,
            key,
            target,
            quorum,
            deadline: (now + self.settings.query_timeout) as u64,
            hops_left: self.settings.hop_limit as nat,
            width: self.settings.bucket_size as nat,
            fanout: self.settings.fanout as nat,
            candidates: closest_among(
                self.routing.peers().filter(other_than(self.id)),
                target,
                self.settings.bucket_size as nat,
            ),
            asked: Seq::empty(),
            answered: Seq::empty(),
            acks: Seq::empty(),
            found: Seq::empty(),
            stage: Stage::Lookup,
        }
    }

    /// State and actions after the node started an operation at `now`:
    /// a timer is armed for its deadline and its first requests go out.
    pub open spec fn start(
        self,
        kind: QueryKind,
        key: Seq<u8>,
        target: PeerId,
        record: Option<RecordView>,
        quorum: nat,
        now: u64,
    ) -> (NodeView, Seq<ActionView>) {
        let query = self.new_query(kind, key, target, quorum, now);
        let entry = EntryView { id: self.next_query, query, record };
        let begun = NodeView {
            queries: self.queries.push(entry),
            next_query: (self.next_query + 1) as u64,
            ..self
        };
        let driven = begun.drive(self.queries.len() as int, now);
        (
            driven.0,
            seq![ActionView::Schedule { timer: Timer::Queries, at: query.deadline }] + driven.1,
        )
    }

    /// State and actions after `from` answered a request of the
    /// operation `id`.
    pub open spec fn answer(
        self,
        id: u64,
        from: PeerId,
        closer: Seq<PeerId>,
        found: Option<RecordView>,
        now: u64,
    ) -> (NodeView, Seq<ActionView>) {
        if self.has_query(id) {
            let index = self.query_position(id);
            let heard = NodeView { routing: self.routing.insert(from).0, ..self }.with_query(
                index,
                self.queries[index].query.respond(from, closer, found),
            );
            let driven = heard.drive(index, now);
            (driven.0, ping_for(self.routing.insert(from).1, from) + driven.1)
        } else {
            (self, Seq::empty())
        }
    }

    /// State and actions after `from` acknowledged the record of the
    /// operation `id`.
    pub open spec fn acknowledge(self, id: u64, from: PeerId, now: u64) -> (
        NodeView,
        Seq<ActionView>,
    ) {
        if self.has_query(id) {
            let index = self.query_position(id);
            self.with_query(index, self.queries[index].query.stored(from)).drive(index, now)
        } else {
            (self, Seq::empty())
        }
    }

    /// State and actions after `peer`, which the operation `id` asked,
    /// was found unreachable: it leaves the routing table too.
    pub open spec fn give_up(self, id: u64, peer: PeerId, now: u64) -> (NodeView, Seq<ActionView>) {
        if self.has_query(id) {
            let index = self.query_position(id);
            NodeView { routing: self.routing.remove(peer), ..self }.with_query(
                index,
                self.queries[index].query.unreachable(peer),
            ).drive(index, now)
        } else {
            (self, Seq::empty())
        }
    }

    /// State and actions after `event` happened at `now`.
    pub open spec fn handle(self, event: EventView, now: u64) -> (NodeView, Seq<ActionView>) {
        match event {
            EventView::Timer(Timer::Broadcast) => self.broadcast(now),
            EventView::Timer(Timer::Sweep) => self.sweep(now),
            EventView::Timer(Timer::Queries) => self.poll(self.queries.len(), now),
            EventView::Announcement(ann) => self.hear(ann, now),
            EventView::Liveness { peer, candidate, alive } => self.settle(peer, candidate, alive),
            EventView::Gossip { from, message } => self.receive(from, message),
            EventView::PeerSubscribed { peer, topic } => (
                NodeView { gossip: self.gossip.with_remote(peer, topic), ..self },
                Seq::empty(),
            ),
            EventView::PeerUnsubscribed { peer, topic } => (
                NodeView { gossip: self.gossip.without_remote(peer, topic), ..self },
                Seq::empty(),
            ),
            EventView::Connected { peer } => self.connect(peer),
            EventView::Sent { peer, accepted } => self.sent(peer, accepted),
            EventView::PeerGone(peer) => (self.disconnect(peer), Seq::empty()),
            EventView::FindNode { from, request, target } => self.find_node(from, request, target),
            EventView::GetValue { from, request, key } => self.get_value(from, request, key, now),
            EventView::PutValue { from, request, record } => self.put_value(
                from,
                request,
                record,
                now,
            ),
            EventView::Response { query, from, closer, found } => self.answer(
                query,
                from,
                closer,
                found,
                now,
            ),
            EventView::Stored { query, from } => self.acknowledge(query, from, now),
            EventView::Unreachable { query, peer } => self.give_up(query, peer, now),
        }
    }

    /// The record that the node publishes at `now` under `key`.
    pub open spec fn own_record(self, key: Seq<u8>, value: Seq<u8>, now: u64) -> RecordView {
        RecordView {
            key,
            value,
            publisher: self.id,
            expiry: (now + self.settings.record_ttl) as u64,
        }
    }
}

/// The request that goes to the peers of `batch` for the operation of
/// `entry`: for the value in a get, for closer peers otherwise.
pub open spec fn ask_action(entry: EntryView, batch: Seq<PeerId>) -> ActionView {
    match entry.query.kind {
        QueryKind::GetValue => ActionView::AskValue {
            query: entry.id,
            peers: batch,
            key: entry.query.key,
        },
        _ => ActionView::AskPeers { query: entry.id, peers: batch, target: entry.query.target },
    }
}

/// What tells each of `peers` that the node is subscribed to `topic`, or
/// is no longer.
pub open spec fn tell_each(peers: Seq<PeerId>, topic: Seq<char>, subscribed: bool) -> Seq<
    ActionView,
> {
    Seq::new(peers.len(), |i: int| ActionView::Tell { peer: peers[i], topic, subscribed })
}

/// What tells `peer` that the node is subscribed to each of `topics`.
pub open spec fn tell_all(peer: PeerId, topics: Seq<Seq<char>>) -> Seq<ActionView> {
    Seq::new(topics.len(), |i: int| ActionView::Tell { peer, topic: topics[i], subscribed: true })
}

/// Holds of the peers that are closer to `target` than `than` is.
pub open spec fn closer_than(target: PeerId, than: PeerId) -> spec_fn(PeerId) -> bool {
    |p: PeerId| distance(target, p) < distance(target, than)
}

/// The gossip state once none of `peers` is an explicit peer.
pub open spec fn without_all(gossip: GossipView, peers: Seq<PeerId>) -> GossipView
    decreases peers.len(),
{
    if peers.len() == 0 {
        gossip
    } else {
        without_all(gossip, peers.drop_last()).without_explicit(peers.last())
    }
}

/// The reports that `peers` have expired.
pub open spec fn expiries(peers: Seq<PeerId>) -> Seq<ActionView> {
    Seq::new(peers.len(), |i: int| ActionView::PeerExpired(peers[i]))
}

/// Number of the peers that are closer to `target` than `than` is.
pub fn count_closer(peers: &Vec<PeerId>, target: &PeerId, than: &PeerId) -> (n: usize)
    ensures
        n == peers@.filter(closer_than(*target, *than)).len(),
{
    let ghost keep = closer_than(*target, *than);
    let mut n: usize = 0;
    let mut i: usize = 0;
    proof {
        lemma_filter_none(peers@, keep);
    }
    while i < peers.len()
        invariant
            i <= peers@.len(),
            keep == closer_than(*target, *than),
            n == peers@.take(i as int).filter(keep).len(),
            n <= i,
        decreases peers@.len() - i,
    {
        proof {
            lemma_filter_step(peers@, keep, i as int);
        }
        if target.closer(&peers[i], than) {
            n += 1;
        }
        i += 1;
    }
    assert(peers@.take(peers@.len() as int) =~= peers@);
    n
}

/// A node of the overlay.
pub struct Node {
    pub identity: NodeIdentity,
    pub addrs: Vec<Address>,
    pub settings: Settings,
    pub discovery: Discovery,
    pub gossip: Gossip,
    pub routing: RoutingTable,
    pub store: RecordStore,
    pub queries: Vec<QueryEntry>,
    pub next_query: u64,
    pub connections: Connections,
}

impl View for Node {
    type V = NodeView;

    open spec fn view(&self) -> NodeView {
        NodeView {
            id: self.identity.spec_id(),
            seed: self.identity.spec_seed(),
            addrs: self.addrs@,
            settings: self.settings,
            discovery: self.discovery@,
            gossip: self.gossip@,
            routing: self.routing@,
            store: self.store@,
            queries: entry_views(self.queries@),
            next_query: self.next_query,
            connections: self.connections.view(),
        }
    }
}

impl Node {
    /// What holds of every node that `new` made and the handlers changed.
    pub open spec fn wf(&self) -> bool {
        &&& self.discovery.wf()
        &&& self.gossip.wf()
        &&& self.routing.wf()
        &&& self.store.wf()
        &&& self.connections.wf()
        &&& self.connections.limit() == self.settings.refusal_limit
        &&& forall|i: int| 0 <= i < self.queries@.len() ==> (#[trigger] self.queries@[i]).query.wf()
        &&& self@.well_formed()
    }

    /// A node that knows no peer, is subscribed to nothing and holds no
    /// record. There is none where the settings are not usable.
    pub fn new(identity: NodeIdentity, addrs: Vec<Address>, settings: Settings) -> (made: Option<
        Node,
    >)
        ensures
            made.is_some() == settings.usable(),
            made.is_some() ==> {
                let node = made.unwrap();
                &&& node.wf()
                &&& node.identity == identity
                &&& node@.addrs == addrs@
                &&& node@.settings == settings
                &&& node@.discovery.peers == Seq::<crate::discovery::PeerRecordView>::empty()
                &&& node@.discovery.ttl == settings.interval * settings.tolerance
                &&& node@.discovery.next_broadcast == 0
                &&& node@.gossip.topics == Seq::<Seq<char>>::empty()
                &&& node@.gossip.explicit == Seq::<PeerId>::empty()
                &&& node@.gossip.remote == Seq::<(PeerId, Seq<char>)>::empty()
                &&& node@.gossip.seen == Seq::<crate::message::MessageId>::empty()
                &&& node@.gossip.capacity == settings.seen_capacity
                &&& node@.gossip.next_sequence == 0
                &&& node@.routing.capacity == settings.bucket_size
                &&& node@.routing.peers() == Seq::<PeerId>::empty()
                &&& node@.store == Seq::<RecordView>::empty()
                &&& node@.queries == Seq::<EntryView>::empty()
                &&& node@.next_query == 0
                &&& node@.connections == Seq::<Connection>::empty()
            },
    {
        let id = identity.id();
        let discovery = match Discovery::new(id, settings.interval, settings.tolerance) {
            Some(d) => d,
            None => {
                return None;
            },
        };
        let gossip = match Gossip::new(id, settings.seen_capacity) {
            Some(g) => g,
            None => {
                return None;
            },
        };
        let routing = match RoutingTable::new(id, settings.bucket_size) {
            Some(r) => r,
            None => {
                return None;
            },
        };
        if settings.fanout == 0 {
            return None;
        }
        proof {
            crate::routing::lemma_flat_empty(routing@.buckets);
        }
        let node = Node {
            identity,
            addrs,
            settings,
            discovery,
            gossip,
            routing,
            store: RecordStore::new(),
            queries: Vec::new(),
            next_query: 0,
            connections: Connections::new(settings.refusal_limit),
        };
        assert(node@.queries =~= Seq::<EntryView>::empty());
        Some(node)
    }

    /// Adds to `actions` the liveness check that `outcome` asks for.
    fn push_ping(actions: &mut Vec<Action>, outcome: InsertOutcome, candidate: PeerId)
        ensures
            action_views(final(actions)@) == action_views(old(actions)@) + ping_for(
                outcome,
                candidate,
            ),
    {
        match outcome {
            InsertOutcome::Full { oldest } => {
                actions.push(Action::Ping { peer: oldest, candidate });
                assert(action_views(actions@) =~= action_views(old(actions)@) + ping_for(
                    outcome,
                    candidate,
                ));
            },
            _ => {
                assert(action_views(actions@) =~= action_views(old(actions)@) + ping_for(
                    outcome,
                    candidate,
                ));
            },
        }
    }

    /// Takes in what discovery reported.
    pub fn inject_event(&mut self, event: DiscoveryEvent) -> (actions: Vec<Action>)
        requires
            old(self).wf(),
        ensures
            final(self).wf(),
            (final(self)@, action_views(actions@)) == old(self)@.inject(event),
    {
        let mut actions: Vec<Action> = Vec::new();
        assert(action_views(actions@) =~= Seq::empty());
        match event {
            DiscoveryEvent::Discovered(peer) => {
                self.gossip.add_explicit_peer(&peer);
                let outcome = self.routing.insert(peer);
                actions.push(Action::Dial { peer });
                assert(action_views(actions@) =~= seq![ActionView::Dial { peer }]);
                Node::push_ping(&mut actions, outcome, peer);
            },
            DiscoveryEvent::Refreshed(peer) => {
                self.gossip.add_explicit_peer(&peer);
                let outcome = self.routing.insert(peer);
                Node::push_ping(&mut actions, outcome, peer);
                assert(action_views(actions@) =~= ping_for(outcome, peer));
            },
            DiscoveryEvent::Expired(peer) => {
                self.gossip.remove_explicit_peer(&peer);
                actions.push(Action::PeerExpired(peer));
                assert(action_views(actions@) =~= seq![ActionView::PeerExpired(peer)]);
            },
            DiscoveryEvent::Ignored => {},
        }
        actions
    }

    /// Takes in a presence announcement that was heard at `now`.
    pub fn on_announcement(&mut self, ann: Announcement, now: u64) -> (actions: Vec<Action>)
        requires
            old(self).wf(),
        ensures
            final(self).wf(),
            (final(self)@, action_views(actions@)) == old(self)@.hear(ann@, now),
    {
        let event = self.discovery.on_announcement(ann, now);
        self.inject_event(event)
    }

    /// Takes in the end of a liveness check.
    pub fn on_liveness(&mut self, peer: PeerId, candidate: PeerId, alive: bool) -> (actions: Vec<
        Action,
    >)
        requires
            old(self).wf(),
        ensures
            final(self).wf(),
            (final(self)@, action_views(actions@)) == old(self)@.settle(peer, candidate, alive),
    {
        let mut actions: Vec<Action> = Vec::new();
        assert(action_views(actions@) =~= Seq::empty());
        let outcome = self.routing.settle(candidate, peer, alive);
        Node::push_ping(&mut actions, outcome, candidate);
        assert(action_views(actions@) =~= ping_for(outcome, candidate));
        actions
    }

    /// Takes in a message that the peer `from` sent.
    pub fn on_gossip(&mut self, from: PeerId, message: Message) -> (actions: Vec<Action>)
        requires
            old(self).wf(),
        ensures
            final(self).wf(),
            (final(self)@, action_views(actions@)) == old(self)@.receive(from, message@),
    {
        let mut actions: Vec<Action> = Vec::new();
        assert(action_views(actions@) =~= Seq::empty());
        match self.gossip.on_message(&from, &message) {
            Receipt::Delivered { relay_to } => {
                let ghost m = message@;
                let ghost to = relay_to@;
                actions.push(Action::Gossip { message, deliver: true, peers: relay_to });
                assert(action_views(actions@) =~= seq![
                    ActionView::Gossip { message: m, deliver: true, peers: to },
                ]);
            },
            _ => {},
        }
        actions
    }
    /// What tells each of `peers` of a subscription to `topic` or of its
    /// end.
    fn tell_peers(peers: &Vec<PeerId>, topic: &Topic, subscribed: bool) -> (actions: Vec<Action>)
        ensures
            action_views(actions@) == tell_each(peers@, topic@, subscribed),
    {
        let mut actions: Vec<Action> = Vec::new();
        let mut i: usize = 0;
        while i < peers.len()
            invariant
                i <= peers@.len(),
                actions@.len() == i,
                action_views(actions@) == tell_each(peers@.take(i as int), topic@, subscribed),
            decreases peers@.len() - i,
        {
            let ghost before = actions@;
            actions.push(Action::Tell { peer: peers[i], topic: topic.clone(), subscribed });
            proof {
                let got = action_views(actions@);
                let wanted = tell_each(peers@.take(i + 1), topic@, subscribed);
                assert forall|k: int| 0 <= k < got.len() implies got[k] == wanted[k] by {
                    if k < i {
                        assert(actions@[k] == before[k]);
                        assert(action_views(before)[k] == tell_each(
                            peers@.take(i as int),
                            topic@,
                            subscribed,
                        )[k]);
                    }
                }
                assert(got =~= wanted);
            }
            i += 1;
        }
        assert(peers@.take(peers@.len() as int) =~= peers@);
        actions
    }

    /// What tells `peer` of the subscription to each of `topics`.
    fn tell_topics(peer: PeerId, topics: Vec<Topic>) -> (actions: Vec<Action>)
        ensures
            action_views(actions@) == tell_all(peer, crate::gossip::topic_names(topics@)),
    {
        let ghost names = crate::gossip::topic_names(topics@);
        let mut actions: Vec<Action> = Vec::new();
        let mut i: usize = 0;
        while i < topics.len()
            invariant
                i <= topics@.len(),
                actions@.len() == i,
                names == crate::gossip::topic_names(topics@),
                action_views(actions@) == tell_all(peer, names.take(i as int)),
            decreases topics@.len() - i,
        {
            let ghost before = actions@;
            actions.push(Action::Tell { peer, topic: topics[i].clone(), subscribed: true });
            proof {
                let got = action_views(actions@);
                let wanted = tell_all(peer, names.take(i + 1));
                assert forall|k: int| 0 <= k < got.len() implies got[k] == wanted[k] by {
                    if k < i {
                        assert(actions@[k] == before[k]);
                        assert(action_views(before)[k] == tell_all(peer, names.take(i as int))[k]);
                    }
                }
                assert(got =~= wanted);
            }
            i += 1;
        }
        assert(names.take(names.len() as int) =~= names);
        actions
    }

    /// Registers the node's interest in `topic`.
    pub fn subscribe(&mut self, topic: &Topic) -> (actions: Vec<Action>)
        requires
            old(self).wf(),
        ensures
            final(self).wf(),
            (final(self)@, action_views(actions@)) == old(self)@.subscribe(topic@),
    {
        if self.gossip.subscribe(topic) {
            let peers = self.connections.peers();
            Node::tell_peers(&peers, topic, true)
        } else {
            let actions: Vec<Action> = Vec::new();
            assert(action_views(actions@) =~= Seq::empty());
            actions
        }
    }

    /// Withdraws the node's interest in `topic`.
    pub fn unsubscribe(&mut self, topic: &Topic) -> (actions: Vec<Action>)
        requires
            old(self).wf(),
        ensures
            final(self).wf(),
            (final(self)@, action_views(actions@)) == old(self)@.unsubscribe(topic@),
    {
        if self.gossip.unsubscribe(topic) {
            let peers = self.connections.peers();
            Node::tell_peers(&peers, topic, false)
        } else {
            let actions: Vec<Action> = Vec::new();
            assert(action_views(actions@) =~= Seq::empty());
            actions
        }
    }

    /// Takes in that a connection to `peer` was set up.
    pub fn on_connected(&mut self, peer: PeerId) -> (actions: Vec<Action>)
        requires
            old(self).wf(),
        ensures
            final(self).wf(),
            (final(self)@, action_views(actions@)) == old(self)@.connect(peer),
    {
        if self.connections.open(peer) {
            Node::tell_topics(peer, self.gossip.subscriptions())
        } else {
            let actions: Vec<Action> = Vec::new();
            assert(action_views(actions@) =~= Seq::empty());
            actions
        }
    }

    /// Takes in how a send to `peer` went.
    pub fn on_sent(&mut self, peer: PeerId, accepted: bool) -> (actions: Vec<Action>)
        requires
            old(self).wf(),
        ensures
            final(self).wf(),
            (final(self)@, action_views(actions@)) == old(self)@.sent(peer, accepted),
    {
        let mut actions: Vec<Action> = Vec::new();
        assert(action_views(actions@) =~= Seq::empty());
        if self.connections.on_send(&peer, accepted) {
            self.gossip.on_peer_gone(&peer);
            actions.push(Action::Drop { peer });
            assert(action_views(actions@) =~= seq![ActionView::Drop { peer }]);
        }
        actions
    }

    /// Publishes a payload on a topic.
    pub fn publish(&mut self, topic: Topic, payload: Vec<u8>) -> (actions: Vec<Action>)
        requires
            old(self).wf(),
            old(self)@.gossip.next_sequence < u64::MAX,
        ensures
            final(self).wf(),
            (final(self)@, action_views(actions@)) == old(self)@.publish(
                old(self)@.sign(topic@, payload@),
            ),
    {
        let p = self.gossip.publish(&self.identity, topic, payload);
        let ghost m = p.message@;
        let ghost to = p.send_to@;
        let mut actions: Vec<Action> = Vec::new();
        actions.push(Action::Gossip { message: p.message, deliver: p.deliver, peers: p.send_to });
        assert(action_views(actions@) =~= seq![
            ActionView::Gossip { message: m, deliver: p.deliver, peers: to },
        ]);
        actions
    }

    /// Takes in that `peer` told of its subscription to `topic`.
    pub fn on_peer_subscribed(&mut self, peer: PeerId, topic: &Topic)
        requires
            old(self).wf(),
        ensures
            final(self).wf(),
            final(self)@ == (NodeView {
                gossip: old(self)@.gossip.with_remote(peer, topic@),
                ..old(self)@
            }),
    {
        self.gossip.on_peer_subscribed(&peer, topic);
    }

    /// Takes in that `peer` told of the end of its subscription to
    /// `topic`.
    pub fn on_peer_unsubscribed(&mut self, peer: PeerId, topic: &Topic)
        requires
            old(self).wf(),
        ensures
            final(self).wf(),
            final(self)@ == (NodeView {
                gossip: old(self)@.gossip.without_remote(peer, topic@),
                ..old(self)@
            }),
    {
        self.gossip.on_peer_unsubscribed(&peer, topic);
    }

    /// Takes in that the connection to `peer` has ended.
    pub fn on_peer_gone(&mut self, peer: PeerId)
        requires
            old(self).wf(),
        ensures
            final(self).wf(),
            final(self)@ == old(self)@.disconnect(peer),
    {
        self.connections.close(&peer);
        self.gossip.on_peer_gone(&peer);
    }

    /// Whether `now` leaves room for the node's timers: the time of the
    /// next announcement and the deadline of an operation started now
    /// can still be told.
    pub open spec fn in_time(&self, now: u64) -> bool {
        &&& now + self.settings.interval <= u64::MAX
        &&& now + self.settings.query_timeout <= u64::MAX
        &&& now + self.settings.record_ttl <= u64::MAX
    }

    /// Whether `now` leaves room for the node's timers.
    pub fn is_in_time(&self, now: u64) -> (r: bool)
        ensures
            r == self.in_time(now),
    {
        now <= u64::MAX - self.settings.interval && now <= u64::MAX - self.settings.query_timeout
            && now <= u64::MAX - self.settings.record_ttl
    }

    /// Takes in that the broadcast timer fired at `now`.
    pub fn on_broadcast_timer(&mut self, now: u64) -> (actions: Vec<Action>)
        requires
            old(self).wf(),
            old(self).in_time(now),
        ensures
            final(self).wf(),
            (final(self)@, action_views(actions@)) == old(self)@.broadcast(now),
    {
        let mut actions: Vec<Action> = Vec::new();
        let before = self.discovery.next_time();
        if self.discovery.poll_broadcast(now) {
            let ann = self.discovery.announcement(copy_addrs(&self.addrs));
            let ghost a = ann@;
            actions.push(Action::Broadcast(ann));
            let at = self.discovery.next_time();
            actions.push(Action::Schedule { timer: Timer::Broadcast, at });
            assert(action_views(actions@) =~= seq![
                ActionView::Broadcast(a),
                ActionView::Schedule { timer: Timer::Broadcast, at },
            ]);
        } else {
            actions.push(Action::Schedule { timer: Timer::Broadcast, at: before });
            assert(action_views(actions@) =~= seq![
                ActionView::Schedule { timer: Timer::Broadcast, at: before },
            ]);
        }
        actions
    }

    /// Takes in that the sweep timer fired at `now`.
    pub fn on_sweep_timer(&mut self, now: u64) -> (actions: Vec<Action>)
        requires
            old(self).wf(),
        ensures
            final(self).wf(),
            (final(self)@, action_views(actions@)) == old(self)@.sweep(now),
    {
        let gone = self.discovery.sweep(now);
        self.store.sweep(now);
        let mut actions: Vec<Action> = Vec::new();
        let ghost gossip = self@.gossip;
        let mut i: usize = 0;
        assert(gone@.take(0) =~= Seq::<PeerId>::empty());
        assert(action_views(actions@) =~= expiries(gone@.take(0)));
        while i < gone.len()
            invariant
                i <= gone@.len(),
                self.wf(),
                self@ == (NodeView {
                    gossip: without_all(gossip, gone@.take(i as int)),
                    ..old(self)@.sweep(now).0
                }),
                actions@.len() == i,
                action_views(actions@) == expiries(gone@.take(i as int)),
            decreases gone@.len() - i,
        {
            let ghost before = action_views(actions@);
            let ghost prev = actions@;
            self.gossip.remove_explicit_peer(&gone[i]);
            actions.push(Action::PeerExpired(gone[i]));
            proof {
                assert(gone@.take(i + 1).drop_last() =~= gone@.take(i as int));
                assert(gone@.take(i + 1).last() == gone@[i as int]);
                let after = action_views(actions@);
                let wanted = expiries(gone@.take(i + 1));
                assert forall|k: int| 0 <= k < after.len() implies after[k] == wanted[k] by {
                    if k < i {
                        assert(actions@[k] == prev[k]);
                        assert(after[k] == before[k]);
                        assert(before[k] == expiries(gone@.take(i as int))[k]);
                    }
                }
                assert(after =~= wanted);
            }
            i += 1;
        }
        assert(gone@.take(gone@.len() as int) =~= gone@);
        actions
    }

    /// The closest peers that the node names to `asker` for `target`.
    pub fn closer_to(&self, target: &PeerId, asker: &PeerId) -> (closer: Vec<PeerId>)
        ensures
            closer@ == self@.closer_to(*target, *asker),
    {
        let all = self.routing.peers();
        let others = peers_other_than(&all, asker);
        k_closest(&others, target, self.settings.bucket_size)
    }

    /// Whether the node is one of the closest peers that it knows to
    /// `target`.
    pub fn is_responsible_for(&self, target: &PeerId) -> (r: bool)
        ensures
            r == self@.responsible_for(*target),
    {
        let all = self.routing.peers();
        let own = self.identity.id();
        count_closer(&all, target, &own) < self.settings.bucket_size
    }

    /// Takes in that `from` asks for the peers closest to `target`.
    pub fn on_find_node(&mut self, from: PeerId, request: u64, target: PeerId) -> (actions: Vec<
        Action,
    >)
        requires
            old(self).wf(),
        ensures
            final(self).wf(),
            (final(self)@, action_views(actions@)) == old(self)@.find_node(from, request, target),
    {
        let closer = self.closer_to(&target, &from);
        let ghost c = closer@;
        let outcome = self.routing.insert(from);
        let mut actions: Vec<Action> = Vec::new();
        actions.push(Action::ReplyPeers { to: from, request, closer });
        assert(action_views(actions@) =~= seq![
            ActionView::ReplyPeers { to: from, request, closer: c },
        ]);
        Node::push_ping(&mut actions, outcome, from);
        actions
    }

    /// Takes in that `from` asks at `now` for the value under `key`.
    pub fn on_get_value(&mut self, from: PeerId, request: u64, key: Vec<u8>, now: u64) -> (actions:
        Vec<Action>)
        requires
            old(self).wf(),
        ensures
            final(self).wf(),
            (final(self)@, action_views(actions@)) == old(self)@.get_value(
                from,
                request,
                key@,
                now,
            ),
    {
        let target = content_id(key.as_slice());
        let closer = self.closer_to(&target, &from);
        let ghost c = closer@;
        let found = match self.store.get(key.as_slice(), now) {
            Some(r) => Some(r.clone()),
            None => None,
        };
        let ghost rv = lookup(self@.store, key@, now);
        let outcome = self.routing.insert(from);
        let mut actions: Vec<Action> = Vec::new();
        actions.push(Action::ReplyValue { to: from, request, closer, found });
        assert(action_views(actions@) =~= seq![
            ActionView::ReplyValue { to: from, request, closer: c, found: rv },
        ]);
        Node::push_ping(&mut actions, outcome, from);
        actions
    }

    /// Takes in that `from` asks the node at `now` to store a record.
    pub fn on_put_value(&mut self, from: PeerId, request: u64, record: Record, now: u64) -> (
        actions: Vec<Action>
    )
        requires
            old(self).wf(),
        ensures
            final(self).wf(),
            (final(self)@, action_views(actions@)) == old(self)@.put_value(
                from,
                request,
                record@,
                now,
            ),
    {
        let target = content_id(record.key.as_slice());
        let stored = if self.is_responsible_for(&target) {
            match self.store.put(record, now) {
                PutOutcome::Stored => true,
                PutOutcome::Replaced => true,
                _ => false,
            }
        } else {
            false
        };
        let outcome = self.routing.insert(from);
        let mut actions: Vec<Action> = Vec::new();
        actions.push(Action::ReplyStored { to: from, request, stored });
        assert(action_views(actions@) =~= seq![
            ActionView::ReplyStored { to: from, request, stored },
        ]);
        Node::push_ping(&mut actions, outcome, from);
        actions
    }
    /// Position of the operation known by `id`.
    fn find_query(&self, id: u64) -> (found: Option<usize>)
        requires
            self.wf(),
        ensures
            found.is_some() == self@.has_query(id),
            found.is_some() ==> found.unwrap() < self.queries@.len() && found.unwrap()
                == self@.query_position(id),
    {
        let mut i: usize = 0;
        while i < self.queries.len()
            invariant
                i <= self.queries@.len(),
                self.wf(),
                forall|j: int| 0 <= j < i ==> (#[trigger] self@.queries[j]).id != id,
            decreases self.queries@.len() - i,
        {
            if self.queries[i].id == id {
                proof {
                    assert(self@.queries[i as int].id == id);
                    let p = self@.query_position(id);
                    assert(self@.queries[p].id == self@.queries[i as int].id);
                }
                return Some(i);
            }
            i += 1;
        }
        None
    }

    /// Looks at the operation at `index` at `now`.
    fn drive(&mut self, index: usize, now: u64) -> (actions: Vec<Action>)
        requires
            old(self).wf(),
        ensures
            final(self).wf(),
            (final(self)@, action_views(actions@)) == old(self)@.drive(index as int, now),
    {
        let mut actions: Vec<Action> = Vec::new();
        assert(action_views(actions@) =~= Seq::empty());
        if index >= self.queries.len() {
            return actions;
        }
        let ghost before = self@;
        let ghost entry = before.queries[index as int];
        assert(entry == self.queries@[index as int]@);
        let step = self.queries[index].query.advance(now);
        proof {
            assert(self@.queries =~= before.with_query(
                index as int,
                entry.query.advance(now).0,
            ).queries);
            assert forall|i: int| 0 <= i < self@.queries.len() implies (
            #[trigger] self@.queries[i]).query.local == self@.id && self@.queries[i].id
                < self@.next_query by {
                assert(before.queries[i].query.local == before.id);
            }
            assert forall|i: int, j: int|
                0 <= i < self@.queries.len() && 0 <= j < self@.queries.len() && i != j implies (
            #[trigger] self@.queries[i]).id != (#[trigger] self@.queries[j]).id by {
                assert(before.queries[i].id != before.queries[j].id);
            }
        }
        let id = self.queries[index].id;
        match step {
            Step::Ask(batch) => {
                let ghost b = batch@;
                match self.queries[index].query.kind() {
                    QueryKind::GetValue => {
                        let key = copy_bytes(self.queries[index].query.key().as_slice());
                        actions.push(Action::AskValue { query: id, peers: batch, key });
                    },
                    _ => {
                        let target = self.queries[index].query.target();
                        actions.push(Action::AskPeers { query: id, peers: batch, target });
                    },
                }
                assert(action_views(actions@) =~= seq![ask_action(entry, b)]);
            },
            Step::Store(peers) => {
                let ghost p = peers@;
                match &self.queries[index].record {
                    Some(record) => {
                        let ghost r = record@;
                        actions.push(
                            Action::AskStore { query: id, peers, record: record.clone() },
                        );
                        assert(action_views(actions@) =~= seq![
                            ActionView::AskStore { query: id, peers: p, record: r },
                        ]);
                    },
                    None => {},
                }
            },
            Step::Wait => {},
            Step::Done(outcome) => {
                let ghost o = outcome@;
                self.queries.remove(index);
                actions.push(Action::Finished { query: id, outcome });
                proof {
                    assert(action_views(actions@) =~= seq![
                        ActionView::Finished { query: id, outcome: o },
                    ]);
                    Node::lemma_removed(before, index as int);
                    assert(self@.queries =~= before.queries.remove(index as int));
                }
            },
            Step::Closed => {
                self.queries.remove(index);
                proof {
                    Node::lemma_removed(before, index as int);
                    assert(self@.queries =~= before.queries.remove(index as int));
                }
            },
        }
        actions
    }

    /// Forgetting one operation leaves the others as they were.
    proof fn lemma_removed(before: NodeView, index: int)
        requires
            0 <= index < before.queries.len(),
            before.well_formed(),
        ensures
            (NodeView { queries: before.queries.remove(index), ..before }).well_formed(),
    {
        let after = NodeView { queries: before.queries.remove(index), ..before };
        assert forall|i: int| 0 <= i < after.queries.len() implies (
        #[trigger] after.queries[i]).query.local == after.id && after.queries[i].id
            < after.next_query by {
            let k = if i < index { i } else { i + 1 };
            assert(after.queries[i] == before.queries[k]);
            assert(before.queries[k].query.local == before.id);
        }
        assert forall|i: int, j: int|
            0 <= i < after.queries.len() && 0 <= j < after.queries.len() && i != j implies (
        #[trigger] after.queries[i]).id != (#[trigger] after.queries[j]).id by {
            let a = if i < index { i } else { i + 1 };
            let b = if j < index { j } else { j + 1 };
            assert(after.queries[i] == before.queries[a]);
            assert(after.queries[j] == before.queries[b]);
            assert(before.queries[a].id != before.queries[b].id);
        }
    }
    /// Takes in that the timer of the operations fired at `now`: each
    /// of them is looked at, the last one first.
    pub fn on_queries_timer(&mut self, now: u64) -> (actions: Vec<Action>)
        requires
            old(self).wf(),
        ensures
            final(self).wf(),
            (final(self)@, action_views(actions@)) == old(self)@.poll(
                old(self)@.queries.len(),
                now,
            ),
    {
        let mut actions: Vec<Action> = Vec::new();
        let mut n: usize = self.queries.len();
        let ghost total = self@.queries.len();
        assert(action_views(actions@) + self@.poll(n as nat, now).1 =~= self@.poll(
            n as nat,
            now,
        ).1);
        while n > 0
            invariant
                self.wf(),
                n <= self.queries@.len(),
                old(self)@.poll(total, now) == (
                    self@.poll(n as nat, now).0,
                    action_views(actions@) + self@.poll(n as nat, now).1,
                ),
            decreases n,
        {
            let ghost before = self@;
            let ghost done = action_views(actions@);
            let mut more = self.drive(n - 1, now);
            let ghost first = action_views(more@);
            let ghost a = actions@;
            let ghost m = more@;
            actions.append(&mut more);
            proof {
                assert(actions@ == a + m);
                assert(action_views(actions@) =~= done + first);
                let rest = self@.poll((n - 1) as nat, now);
                assert(before.poll(n as nat, now) == (rest.0, first + rest.1));
                assert(done + (first + rest.1) =~= (done + first) + rest.1);
            }
            n -= 1;
        }
        assert(action_views(actions@) + Seq::<ActionView>::empty() =~= action_views(actions@));
        actions
    }

    /// Starts an operation at `now` for `key`, which lies at `target`, and
    /// tells the number by which it is known.
    pub fn start_query(
        &mut self,
        kind: QueryKind,
        key: Vec<u8>,
        target: PeerId,
        record: Option<Record>,
        quorum: usize,
        now: u64,
    ) -> (started: (u64, Vec<Action>))
        requires
            old(self).wf(),
            old(self).in_time(now),
            old(self)@.next_query < u64::MAX,
            quorum >= 1,
        ensures
            final(self).wf(),
            started.0 == old(self)@.next_query,
            (final(self)@, action_views(started.1@)) == old(self)@.start(
                kind,
                key@,
                target,
                record_view(record),
                quorum as nat,
                now,
            ),
    {
        let ghost before = self@;
        let ghost k = key@;
        let ghost rv = record_view(record);
        let own = self.identity.id();
        let seeds = self.routing.peers();
        let deadline = now + self.settings.query_timeout;
        let made = PendingQuery::start(
            own,
            kind,
            key,
            target,
            &seeds,
            quorum,
            deadline,
            self.settings.hop_limit,
            self.settings.bucket_size,
            self.settings.fanout,
        );
        let query = made.unwrap();
        assert(query@ == before.new_query(kind, k, target, quorum as nat, now));
        let id = self.next_query;
        let index = self.queries.len();
        self.queries.push(QueryEntry { id, query, record });
        self.next_query = self.next_query + 1;
        proof {
            let entry = EntryView {
                id,
                query: before.new_query(kind, k, target, quorum as nat, now),
                record: rv,
            };
            assert(self@.queries =~= before.queries.push(entry));
            assert forall|i: int| 0 <= i < self@.queries.len() implies (
            #[trigger] self@.queries[i]).query.local == self@.id && self@.queries[i].id
                < self@.next_query by {
                if i < before.queries.len() {
                    assert(before.queries[i].query.local == before.id);
                }
            }
            assert forall|i: int, j: int|
                0 <= i < self@.queries.len() && 0 <= j < self@.queries.len() && i != j implies (
            #[trigger] self@.queries[i]).id != (#[trigger] self@.queries[j]).id by {
                if i < before.queries.len() && j < before.queries.len() {
                    assert(before.queries[i].id != before.queries[j].id);
                } else if i < before.queries.len() {
                    assert(before.queries[i].id < before.next_query);
                } else {
                    assert(before.queries[j].id < before.next_query);
                }
            }
        }
        let mut actions: Vec<Action> = Vec::new();
        actions.push(Action::Schedule { timer: Timer::Queries, at: deadline });
        let ghost head = action_views(actions@);
        assert(head =~= seq![ActionView::Schedule { timer: Timer::Queries, at: deadline }]);
        let mut more = self.drive(index, now);
        let ghost a = actions@;
        let ghost m = more@;
        actions.append(&mut more);
        proof {
            assert(actions@ == a + m);
            assert(action_views(actions@) =~= head + action_views(m));
        }
        (id, actions)
    }

    /// Starts storing `value` under `key` at the peers closest to it, for
    /// the node as publisher; it succeeds once `quorum` of them have
    /// acknowledged. Tells the number by which the operation is known.
    /// Nothing is started for a quorum of zero.
    pub fn put_record(&mut self, key: Vec<u8>, value: Vec<u8>, quorum: usize, now: u64) -> (started:
        Option<(u64, Vec<Action>)>)
        requires
            old(self).wf(),
            old(self).in_time(now),
            old(self)@.next_query < u64::MAX,
        ensures
            final(self).wf(),
            started.is_some() == (quorum >= 1),
            started.is_none() ==> final(self)@ == old(self)@,
            started.is_some() ==> started.unwrap().0 == old(self)@.next_query && (
                final(self)@,
                action_views(started.unwrap().1@),
            ) == old(self)@.start(
                QueryKind::PutValue,
                key@,
                id_of_content(key@),
                Some(old(self)@.own_record(key@, value@, now)),
                quorum as nat,
                now,
            ),
    {
        if quorum == 0 {
            return None;
        }
        let target = content_id(key.as_slice());
        let record = Record {
            key: copy_bytes(key.as_slice()),
            value,
            publisher: self.identity.id(),
            expiry: now + self.settings.record_ttl,
        };
        Some(self.start_query(QueryKind::PutValue, key, target, Some(record), quorum, now))
    }

    /// Starts looking for the value under `key`. Tells the number by
    /// which the operation is known.
    pub fn get_record(&mut self, key: Vec<u8>, now: u64) -> (started: (u64, Vec<Action>))
        requires
            old(self).wf(),
            old(self).in_time(now),
            old(self)@.next_query < u64::MAX,
        ensures
            final(self).wf(),
            started.0 == old(self)@.next_query,
            (final(self)@, action_views(started.1@)) == old(self)@.start(
                QueryKind::GetValue,
                key@,
                id_of_content(key@),
                None,
                1,
                now,
            ),
    {
        let target = content_id(key.as_slice());
        self.start_query(QueryKind::GetValue, key, target, None, 1, now)
    }

    /// Starts looking for the peers closest to `target`. Tells the
    /// number by which the operation is known.
    pub fn find_peers(&mut self, target: PeerId, now: u64) -> (started: (u64, Vec<Action>))
        requires
            old(self).wf(),
            old(self).in_time(now),
            old(self)@.next_query < u64::MAX,
        ensures
            final(self).wf(),
            started.0 == old(self)@.next_query,
            (final(self)@, action_views(started.1@)) == old(self)@.start(
                QueryKind::FindNode,
                target.bytes@,
                target,
                None,
                1,
                now,
            ),
    {
        let key = copy_bytes(target.bytes.as_slice());
        self.start_query(QueryKind::FindNode, key, target, None, 1, now)
    }

    /// Takes in that `from` answered a request of the operation `id`.
    pub fn on_response(
        &mut self,
        id: u64,
        from: PeerId,
        closer: Vec<PeerId>,
        found: Option<Record>,
        now: u64,
    ) -> (actions: Vec<Action>)
        requires
            old(self).wf(),
        ensures
            final(self).wf(),
            (final(self)@, action_views(actions@)) == old(self)@.answer(
                id,
                from,
                closer@,
                record_view(found),
                now,
            ),
    {
        let mut actions: Vec<Action> = Vec::new();
        assert(action_views(actions@) =~= Seq::empty());
        let index = match self.find_query(id) {
            Some(index) => index,
            None => {
                return actions;
            },
        };
        let ghost before = self@;
        let ghost entry = before.queries[index as int];
        assert(entry == self.queries@[index as int]@);
        let outcome = self.routing.insert(from);
        self.queries[index].query.on_response(&from, &closer, found);
        proof {
            Node::lemma_replaced(
                before,
                self@,
                index as int,
                entry.query.respond(from, closer@, record_view(found)),
            );
        }
        Node::push_ping(&mut actions, outcome, from);
        let ghost head = action_views(actions@);
        assert(head =~= ping_for(outcome, from));
        let mut more = self.drive(index, now);
        let ghost a = actions@;
        let ghost m = more@;
        actions.append(&mut more);
        proof {
            assert(actions@ == a + m);
            assert(action_views(actions@) =~= head + action_views(m));
        }
        actions
    }

    /// Takes in that `from` acknowledged the record of the operation
    /// `id`.
    pub fn on_stored(&mut self, id: u64, from: PeerId, now: u64) -> (actions: Vec<Action>)
        requires
            old(self).wf(),
        ensures
            final(self).wf(),
            (final(self)@, action_views(actions@)) == old(self)@.acknowledge(id, from, now),
    {
        let index = match self.find_query(id) {
            Some(index) => index,
            None => {
                let actions: Vec<Action> = Vec::new();
                assert(action_views(actions@) =~= Seq::empty());
                return actions;
            },
        };
        let ghost before = self@;
        let ghost entry = before.queries[index as int];
        assert(entry == self.queries@[index as int]@);
        self.queries[index].query.on_stored(&from);
        proof {
            Node::lemma_replaced(before, self@, index as int, entry.query.stored(from));
        }
        self.drive(index, now)
    }

    /// Takes in that `peer`, which the operation `id` asked, cannot be
    /// reached.
    pub fn on_unreachable(&mut self, id: u64, peer: PeerId, now: u64) -> (actions: Vec<Action>)
        requires
            old(self).wf(),
        ensures
            final(self).wf(),
            (final(self)@, action_views(actions@)) == old(self)@.give_up(id, peer, now),
    {
        let index = match self.find_query(id) {
            Some(index) => index,
            None => {
                let actions: Vec<Action> = Vec::new();
                assert(action_views(actions@) =~= Seq::empty());
                return actions;
            },
        };
        let ghost before = self@;
        let ghost entry = before.queries[index as int];
        assert(entry == self.queries@[index as int]@);
        self.routing.remove(&peer);
        self.queries[index].query.on_unreachable(&peer);
        proof {
            Node::lemma_replaced(before, self@, index as int, entry.query.unreachable(peer));
        }
        self.drive(index, now)
    }

    /// Changing the state of one operation leaves the node well formed.
    proof fn lemma_replaced(before: NodeView, after: NodeView, index: int, query: QueryView)
        requires
            0 <= index < before.queries.len(),
            before.well_formed(),
            query.local == before.id,
            after.queries.len() == before.queries.len(),
            forall|i: int|
                0 <= i < before.queries.len() && i != index ==> #[trigger] after.queries[i]
                    == before.queries[i],
            after.queries[index] == (EntryView { query, ..before.queries[index] }),
        ensures
            after.queries == before.with_query(index, query).queries,
            forall|i: int|
                0 <= i < after.queries.len() ==> (#[trigger] after.queries[i]).query.local
                    == before.id && after.queries[i].id < before.next_query,
            forall|i: int, j: int|
                0 <= i < after.queries.len() && 0 <= j < after.queries.len() && i != j ==> (
                #[trigger] after.queries[i]).id != (#[trigger] after.queries[j]).id,
    {
        assert(after.queries =~= before.with_query(index, query).queries);
        assert forall|i: int| 0 <= i < after.queries.len() implies (
        #[trigger] after.queries[i]).query.local == before.id && after.queries[i].id
            < before.next_query by {
            assert(before.queries[i].query.local == before.id);
        }
        assert forall|i: int, j: int|
            0 <= i < after.queries.len() && 0 <= j < after.queries.len() && i != j implies (
        #[trigger] after.queries[i]).id != (#[trigger] after.queries[j]).id by {
            assert(before.queries[i].id != before.queries[j].id);
        }
    }

    /// Takes in an event that happened at `now` and names what is to be
    /// done.
    pub fn handle(&mut self, event: Event, now: u64) -> (actions: Vec<Action>)
        requires
            old(self).wf(),
            old(self).in_time(now),
        ensures
            final(self).wf(),
            (final(self)@, action_views(actions@)) == old(self)@.handle(event@, now),
    {
        match event {
            Event::Timer(Timer::Broadcast) => self.on_broadcast_timer(now),
            Event::Timer(Timer::Sweep) => self.on_sweep_timer(now),
            Event::Timer(Timer::Queries) => self.on_queries_timer(now),
            Event::Announcement(ann) => self.on_announcement(ann, now),
            Event::Liveness { peer, candidate, alive } => self.on_liveness(peer, candidate, alive),
            Event::Gossip { from, message } => self.on_gossip(from, message),
            Event::PeerSubscribed { peer, topic } => {
                self.on_peer_subscribed(peer, &topic);
                let actions: Vec<Action> = Vec::new();
                assert(action_views(actions@) =~= Seq::empty());
                actions
            },
            Event::PeerUnsubscribed { peer, topic } => {
                self.on_peer_unsubscribed(peer, &topic);
                let actions: Vec<Action> = Vec::new();
                assert(action_views(actions@) =~= Seq::empty());
                actions
            },
            Event::Connected { peer } => self.on_connected(peer),
            Event::Sent { peer, accepted } => self.on_sent(peer, accepted),
            Event::PeerGone(peer) => {
                self.on_peer_gone(peer);
                let actions: Vec<Action> = Vec::new();
                assert(action_views(actions@) =~= Seq::empty());
                actions
            },
            Event::FindNode { from, request, target } => self.on_find_node(from, request, target),
            Event::GetValue { from, request, key } => self.on_get_value(from, request, key, now),
            Event::PutValue { from, request, record } => self.on_put_value(
                from,
                request,
                record,
                now,
            ),
            Event::Response { query, from, closer, found } => self.on_response(
                query,
                from,
                closer,
                found,
                now,
            ),
            Event::Stored { query, from } => self.on_stored(query, from, now),
            Event::Unreachable { query, peer } => self.on_unreachable(query, peer, now),
        }
    }
}

} // verus!
