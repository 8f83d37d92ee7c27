//! Dissemination of messages by topic: who is subscribed to what, which
//! messages were seen, and to whom a message goes next.

use crate::crypto::NodeIdentity;
use crate::id::{find_peer, PeerId};
use crate::message::{signed_message, valid, Message, MessageId, MessageView, Topic};
use crate::peers::other_than;
use crate::seqs::{drop_value, lemma_drop_value, lemma_filter_facts, lemma_filter_none,
    lemma_filter_step, lemma_index_of, lemma_push_fresh};
use vstd::prelude::*;

verus! {

/// A remote peer's interest in a topic.
#[derive(Debug, PartialEq, Eq)]
pub struct Subscription {
    pub peer: PeerId,
    pub topic: Topic,
}

impl View for Subscription {
    type V = (PeerId, Seq<char>);

    open spec fn view(&self) -> (PeerId, Seq<char>) {
        (self.peer, self.topic@)
    }
}

/// How a peer stands to a topic.
#[derive(Clone, Copy, Debug, PartialEq, Eq, Structural)]
pub enum PeerState {
    /// Added by discovery: a target for every topic.
    Explicit,
    /// Subscribed to a topic that the node is subscribed to as well.
    Mesh,
    /// Subscribed to a topic that the node only publishes on.
    Fanout,
}

/// What became of a message that a peer sent.
#[derive(Debug, PartialEq, Eq)]
pub enum Receipt {
    /// The message is not valid: it was dropped.
    Invalid,
    /// The message was seen before: it was dropped.
    Duplicate,
    /// The node is not subscribed to the topic: it was dropped.
    NotSubscribed,
    /// The message is delivered to the local subscribers and relayed to
    /// the peers named.
    Delivered { relay_to: Vec<PeerId> },
}

/// A receipt as mathematical values.
pub enum ReceiptView {
    Invalid,
    Duplicate,
    NotSubscribed,
    Delivered { relay_to: Seq<PeerId> },
}

impl View for Receipt {
    type V = ReceiptView;

    open spec fn view(&self) -> ReceiptView {
        match self {
            Receipt::Invalid => ReceiptView::Invalid,
            Receipt::Duplicate => ReceiptView::Duplicate,
            Receipt::NotSubscribed => ReceiptView::NotSubscribed,
            Receipt::Delivered { relay_to } => ReceiptView::Delivered { relay_to: relay_to@ },
        }
    }
}

/// A message that the node published, with what is to be done with it.
#[derive(Debug, PartialEq, Eq)]
pub struct Publication {
    pub message: Message,
    /// Whether the node is subscribed itself and delivers the message
    /// locally.
    pub deliver: bool,
    pub send_to: Vec<PeerId>,
}

/// The gossip state as mathematical values.
pub struct GossipView {
    pub local: PeerId,
    /// Topics that the node is subscribed to.
    pub topics: Seq<Seq<char>>,
    /// Peers added by discovery.
    pub explicit: Seq<PeerId>,
    /// Subscriptions that peers have told of.
    pub remote: Seq<(PeerId, Seq<char>)>,
    /// Identifiers of the messages seen last, oldest first.
    pub seen: Seq<MessageId>,
    /// How many identifiers are kept.
    pub capacity: nat,
    /// Sequence number of the next message published.
    pub next_sequence: u64,
}

impl GossipView {
    /// What holds of the state of every node.
    pub open spec fn well_formed(self) -> bool {
        &&& self.topics.no_duplicates()
        &&& self.explicit.no_duplicates()
        &&& !self.explicit.contains(self.local)
        &&& self.remote.no_duplicates()
        &&& forall|i: int| 0 <= i < self.remote.len() ==> (#[trigger] self.remote[i]).0 != self.local
        &&& 0 < self.capacity
        &&& self.seen.len() <= self.capacity
    }

    /// Whether a message on `topic` may be sent to `peer`.
    pub open spec fn eligible(self, topic: Seq<char>, peer: PeerId) -> bool {
        self.explicit.contains(peer) || self.remote.contains((peer, topic))
    }

    /// How `peer` stands to `topic`.
    pub open spec fn peer_state(self, topic: Seq<char>, peer: PeerId) -> Option<PeerState> {
        if self.explicit.contains(peer) {
            Some(PeerState::Explicit)
        } else if self.remote.contains((peer, topic)) {
            if self.topics.contains(topic) {
                Some(PeerState::Mesh)
            } else {
                Some(PeerState::Fanout)
            }
        } else {
            None
        }
    }

    /// The state once the node is subscribed to `topic`.
    pub open spec fn with_topic(self, topic: Seq<char>) -> GossipView {
        if self.topics.contains(topic) {
            self
        } else {
            GossipView { topics: self.topics.push(topic), ..self }
        }
    }

    /// The state once the node is not subscribed to `topic`.
    pub open spec fn without_topic(self, topic: Seq<char>) -> GossipView {
        GossipView { topics: drop_value(self.topics, topic), ..self }
    }

    /// The state once `peer` is an explicit peer.
    pub open spec fn with_explicit(self, peer: PeerId) -> GossipView {
        if peer == self.local || self.explicit.contains(peer) {
            self
        } else {
            GossipView { explicit: self.explicit.push(peer), ..self }
        }
    }

    /// The state once `peer` is no explicit peer.
    pub open spec fn without_explicit(self, peer: PeerId) -> GossipView {
        GossipView { explicit: drop_value(self.explicit, peer), ..self }
    }

    /// The state once `peer` is known to be subscribed to `topic`.
    pub open spec fn with_remote(self, peer: PeerId, topic: Seq<char>) -> GossipView {
        if peer == self.local || self.remote.contains((peer, topic)) {
            self
        } else {
            GossipView { remote: self.remote.push((peer, topic)), ..self }
        }
    }

    /// The state once `peer` is known not to be subscribed to `topic`.
    pub open spec fn without_remote(self, peer: PeerId, topic: Seq<char>) -> GossipView {
        GossipView { remote: drop_value(self.remote, (peer, topic)), ..self }
    }

    /// The state once `peer` is gone: none of its subscriptions is left.
    pub open spec fn without_peer(self, peer: PeerId) -> GossipView {
        GossipView { remote: self.remote.filter(not_of(peer)), ..self }
    }

    /// The peers that a message on `topic` goes to when it came from
    /// `from`: the explicit peers, then the other subscribers of the
    /// topic, `from` left out.
    pub open spec fn targets(self, topic: Seq<char>, from: PeerId) -> Seq<PeerId> {
        self.explicit.filter(other_than(from)) + firsts(
            self.remote.filter(further_subscriber(self.explicit, topic, from)),
        )
    }

    /// State and receipt after `from` sent the message `m`.
    pub open spec fn receive(self, from: PeerId, m: MessageView) -> (GossipView, ReceiptView) {
        self.accept(from, m, valid(m))
    }

    /// State and receipt after `from` sent the message `m`, of which it is
    /// known whether it is valid.
    pub open spec fn accept(self, from: PeerId, m: MessageView, valid: bool) -> (
        GossipView,
        ReceiptView,
    ) {
        if !valid {
            (self, ReceiptView::Invalid)
        } else if self.seen.contains(m.id) {
            (self, ReceiptView::Duplicate)
        } else if !self.topics.contains(m.topic) {
            (self, ReceiptView::NotSubscribed)
        } else {
            (
                GossipView { seen: remember(self.seen, self.capacity, m.id), ..self },
                ReceiptView::Delivered { relay_to: self.targets(m.topic, from) },
            )
        }
    }

    /// State after the node published a message with identifier `id`.
    pub open spec fn publish(self, id: MessageId) -> GossipView {
        GossipView {
            seen: remember(self.seen, self.capacity, id),
            next_sequence: (self.next_sequence + 1) as u64,
            ..self
        }
    }
}

/// Holds of the subscriptions of every peer but `peer`.
pub open spec fn not_of(peer: PeerId) -> spec_fn((PeerId, Seq<char>)) -> bool {
    |s: (PeerId, Seq<char>)| s.0 != peer
}

/// Holds of the subscriptions to `topic` of peers that are neither
/// `from` nor explicit.
pub open spec fn further_subscriber(explicit: Seq<PeerId>, topic: Seq<char>, from: PeerId)
    -> spec_fn((PeerId, Seq<char>)) -> bool {
    |s: (PeerId, Seq<char>)| s.1 == topic && s.0 != from && !explicit.contains(s.0)
}

/// The peers of a sequence of subscriptions.
pub open spec fn firsts(s: Seq<(PeerId, Seq<char>)>) -> Seq<PeerId> {
    Seq::new(s.len(), |i: int| s[i].0)
}

/// The identifiers kept once `id` was seen: the oldest leaves when there
/// is no room.
pub open spec fn remember(seen: Seq<MessageId>, capacity: nat, id: MessageId) -> Seq<MessageId> {
    if seen.len() < capacity {
        seen.push(id)
    } else {
        seen.skip(1).push(id)
    }
}

/// The identifiers kept once all of `ids` were seen, one after the other.
pub open spec fn remember_all(seen: Seq<MessageId>, capacity: nat, ids: Seq<MessageId>) -> Seq<
    MessageId,
>
    decreases ids.len(),
{
    if ids.len() == 0 {
        seen
    } else {
        remember_all(remember(seen, capacity, ids[0]), capacity, ids.skip(1))
    }
}

/// The targets of a message are the peers eligible for its topic other
/// than the one it came from, each once.
pub proof fn lemma_targets(g: GossipView, topic: Seq<char>, from: PeerId)
    requires
        g.well_formed(),
    ensures
        g.targets(topic, from).no_duplicates(),
        !g.targets(topic, from).contains(from),
        forall|p: PeerId| #[trigger]
            g.targets(topic, from).contains(p) <==> (p != from && g.eligible(topic, p)),
{
    let first = other_than(from);
    let second = further_subscriber(g.explicit, topic, from);
    let a = g.explicit.filter(first);
    let r = g.remote.filter(second);
    let b = firsts(r);
    let t = g.targets(topic, from);
    lemma_filter_facts(g.explicit, first);
    lemma_filter_facts(g.remote, second);
    assert forall|i: int| 0 <= i < r.len() implies second(#[trigger] r[i]) && g.remote.contains(
        r[i],
    ) by {
        assert(r.contains(r[i]));
    }
    assert forall|p: PeerId| #[trigger] t.contains(p) <==> (p != from && g.eligible(topic, p)) by {
        if t.contains(p) {
            let i = choose|i: int| 0 <= i < t.len() && t[i] == p;
            if i < a.len() {
                assert(a[i] == p);
                assert(a.contains(p));
            } else {
                let k = i - a.len();
                assert(b[k] == p);
                assert(second(r[k]));
                assert(r[k] == (p, topic));
            }
        }
        if p != from && g.eligible(topic, p) {
            if g.explicit.contains(p) {
                assert(a.contains(p));
                let i = choose|i: int| 0 <= i < a.len() && a[i] == p;
                assert(t[i] == p);
            } else {
                assert(second((p, topic)));
                assert(r.contains((p, topic)));
                let k = choose|k: int| 0 <= k < r.len() && r[k] == (p, topic);
                assert(b[k] == p);
                assert(t[a.len() + k] == p);
            }
        }
    }
    assert forall|i: int, j: int| 0 <= i < t.len() && 0 <= j < t.len() && i != j implies t[i]
        != t[j] by {
        if i < a.len() && j < a.len() {
            assert(a[i] != a[j]);
        } else if i >= a.len() && j >= a.len() {
            let ki = i - a.len();
            let kj = j - a.len();
            assert(second(r[ki]) && second(r[kj]));
            assert(r[ki] != r[kj]);
        } else {
            let x = if i < a.len() { i } else { j };
            let y = if i < a.len() { j } else { i };
            let k = y - a.len();
            assert(second(r[k]));
            assert(a.contains(a[x]));
        }
    }
}

/// A message that is not valid changes nothing: it is neither delivered
/// nor relayed.
pub proof fn lemma_invalid_is_dropped(g: GossipView, from: PeerId, m: MessageView)
    requires
        !valid(m),
    ensures
        g.receive(from, m) == (g, ReceiptView::Invalid),
{
}

/// A message is never relayed to the peer that it came from, and to no
/// peer twice.
pub proof fn lemma_relay_spares_source(g: GossipView, from: PeerId, m: MessageView)
    requires
        g.well_formed(),
    ensures
        g.receive(from, m).1 matches ReceiptView::Delivered { relay_to } ==> !relay_to.contains(
            from,
        ) && relay_to.no_duplicates(),
{
    lemma_targets(g, m.topic, from);
}

/// An identifier that is held stays held while fewer identifiers come
/// after it than there is room behind it.
pub proof fn lemma_remembered(seen: Seq<MessageId>, capacity: nat, at: int, later: Seq<MessageId>)
    requires
        0 <= at < seen.len() <= capacity,
        later.len() <= capacity - seen.len() + at,
    ensures
        remember_all(seen, capacity, later).contains(seen[at]),
        remember_all(seen, capacity, later).len() <= capacity,
    decreases later.len(),
{
    if later.len() > 0 {
        let next = remember(seen, capacity, later[0]);
        let moved = if seen.len() < capacity { at } else { at - 1 };
        assert(next[moved] == seen[at]);
        lemma_remembered(next, capacity, moved, later.skip(1));
    }
}

/// A message that was delivered is not delivered again, whichever peer
/// sends it, while fewer than `capacity` other messages were seen since.
pub proof fn lemma_delivered_once(
    g: GossipView,
    from: PeerId,
    m: MessageView,
    between: Seq<MessageId>,
    later: GossipView,
    again: PeerId,
)
    requires
        g.well_formed(),
        g.receive(from, m).1 is Delivered,
        between.len() < g.capacity,
        later.capacity == g.capacity,
        later.seen == remember_all(g.receive(from, m).0.seen, g.capacity, between),
    ensures
        later.receive(again, m) == (later, ReceiptView::Duplicate),
{
    let after = g.receive(from, m).0;
    let at = after.seen.len() - 1;
    assert(after.seen[at] == m.id);
    lemma_remembered(after.seen, g.capacity, at, between);
}

/// A message that the node published is not delivered to it when a peer
/// sends it back, while fewer than `capacity` other messages were seen
/// since.
pub proof fn lemma_published_not_redelivered(
    g: GossipView,
    m: MessageView,
    between: Seq<MessageId>,
    later: GossipView,
    again: PeerId,
)
    requires
        g.well_formed(),
        valid(m),
        between.len() < g.capacity,
        later.capacity == g.capacity,
        later.seen == remember_all(g.publish(m.id).seen, g.capacity, between),
    ensures
        later.receive(again, m) == (later, ReceiptView::Duplicate),
{
    let after = g.publish(m.id);
    let at = after.seen.len() - 1;
    assert(after.seen[at] == m.id);
    lemma_remembered(after.seen, g.capacity, at, between);
}

/// The names of a sequence of topics.
pub open spec fn topic_names(topics: Seq<Topic>) -> Seq<Seq<char>> {
    Seq::new(topics.len(), |i: int| topics[i]@)
}

/// The views of a sequence of subscriptions.
pub open spec fn subscription_views(subs: Seq<Subscription>) -> Seq<(PeerId, Seq<char>)> {
    Seq::new(subs.len(), |i: int| subs[i]@)
}

/// Position of a topic of the given name.
fn find_topic(topics: &Vec<Topic>, topic: &Topic) -> (found: Option<usize>)
    ensures
        found.is_some() == topic_names(topics@).contains(topic@),
        found.is_some() ==> found.unwrap() < topics@.len() && topics@[found.unwrap() as int]@
            == topic@,
{
    let mut i: usize = 0;
    while i < topics.len()
        invariant
            i <= topics@.len(),
            forall|j: int| 0 <= j < i ==> topic_names(topics@)[j] != topic@,
        decreases topics@.len() - i,
    {
        if topics[i].same(topic) {
            assert(topic_names(topics@)[i as int] == topic@);
            return Some(i);
        }
        i += 1;
    }
    None
}

/// Position of the subscription of `peer` to `topic`.
fn find_subscription(subs: &Vec<Subscription>, peer: &PeerId, topic: &Topic) -> (found: Option<
    usize,
>)
    ensures
        found.is_some() == subscription_views(subs@).contains((*peer, topic@)),
        found.is_some() ==> found.unwrap() < subs@.len() && subs@[found.unwrap() as int]@ == (
            *peer,
            topic@,
        ),
{
    let mut i: usize = 0;
    while i < subs.len()
        invariant
            i <= subs@.len(),
            forall|j: int| 0 <= j < i ==> subscription_views(subs@)[j] != (*peer, topic@),
        decreases subs@.len() - i,
    {
        if subs[i].peer.same(peer) && subs[i].topic.same(topic) {
            assert(subscription_views(subs@)[i as int] == (*peer, topic@));
            return Some(i);
        }
        i += 1;
    }
    None
}

/// Whether `id` is among `seen`.
fn was_seen(seen: &Vec<MessageId>, id: &MessageId) -> (found: bool)
    ensures
        found == seen@.contains(*id),
{
    let mut i: usize = 0;
    while i < seen.len()
        invariant
            i <= seen@.len(),
            forall|j: int| 0 <= j < i ==> seen@[j] != *id,
        decreases seen@.len() - i,
    {
        if seen[i].same(id) {
            return true;
        }
        i += 1;
    }
    false
}

/// The gossip state of a node.
pub struct Gossip {
    local: PeerId,
    topics: Vec<Topic>,
    explicit: Vec<PeerId>,
    remote: Vec<Subscription>,
    seen: Vec<MessageId>,
    capacity: usize,
    next_sequence: u64,
}

impl View for Gossip {
    type V = GossipView;

    closed spec fn view(&self) -> GossipView {
        GossipView {
            local: self.local,
            topics: topic_names(self.topics@),
            explicit: self.explicit@,
            remote: subscription_views(self.remote@),
            seen: self.seen@,
            capacity: self.capacity as nat,
            next_sequence: self.next_sequence,
        }
    }
}

impl Gossip {
    /// What holds of every state that `new` made and the methods changed.
    pub open spec fn wf(&self) -> bool {
        self@.well_formed()
    }

    /// A state without subscriptions and peers that remembers the last
    /// `capacity` message identifiers; there is none for a capacity of
    /// zero.
    pub fn new(local: PeerId, capacity: usize) -> (made: Option<Gossip>)
        ensures
            made.is_some() == (capacity > 0),
            made.is_some() ==> made.unwrap().wf() && made.unwrap()@ == (GossipView {
                local,
                topics: Seq::empty(),
                explicit: Seq::empty(),
                remote: Seq::empty(),
                seen: Seq::empty(),
                capacity: capacity as nat,
                next_sequence: 0,
            }),
    {
        if capacity == 0 {
            return None;
        }
        let g = Gossip {
            local,
            topics: Vec::new(),
            explicit: Vec::new(),
            remote: Vec::new(),
            seen: Vec::new(),
            capacity,
            next_sequence: 0,
        };
        assert(g@.topics =~= Seq::empty());
        assert(g@.remote =~= Seq::empty());
        Some(g)
    }

    /// Whether the node is subscribed to `topic`.
    pub fn is_subscribed(&self, topic: &Topic) -> (r: bool)
        ensures
            r == self@.topics.contains(topic@),
    {
        find_topic(&self.topics, topic).is_some()
    }

    /// The topics that the node is subscribed to.
    pub fn subscriptions(&self) -> (topics: Vec<Topic>)
        ensures
            topic_names(topics@) == self@.topics,
    {
        let mut topics: Vec<Topic> = Vec::new();
        let mut i: usize = 0;
        while i < self.topics.len()
            invariant
                i <= self.topics@.len(),
                topics@.len() == i,
                topic_names(topics@) == topic_names(self.topics@).take(i as int),
            decreases self.topics@.len() - i,
        {
            let ghost before = topics@;
            let copy = self.topics[i].clone();
            topics.push(copy);
            proof {
                let got = topic_names(topics@);
                let wanted = topic_names(self.topics@).take(i + 1);
                assert(got.len() == wanted.len());
                assert forall|k: int| 0 <= k < got.len() implies got[k] == wanted[k] by {
                    if k < i {
                        assert(topics@[k] == before[k]);
                        assert(topic_names(before)[k] == topic_names(self.topics@).take(i as int)[k]);
                    }
                }
                assert(got =~= wanted);
            }
            i += 1;
        }
        assert(topic_names(self.topics@).take(self.topics@.len() as int) =~= topic_names(
            self.topics@,
        ));
        topics
    }

    /// The peers that were added by discovery.
    pub fn explicit_peers(&self) -> (peers: Vec<PeerId>)
        ensures
            peers@ == self@.explicit,
    {
        crate::peers::copy_peers(&self.explicit)
    }

    /// Registers the node's interest in `topic`; tells whether that is new.
    pub fn subscribe(&mut self, topic: &Topic) -> (added: bool)
        requires
            old(self).wf(),
        ensures
            final(self).wf(),
            added == !old(self)@.topics.contains(topic@),
            final(self)@ == old(self)@.with_topic(topic@),
    {
        if find_topic(&self.topics, topic).is_some() {
            return false;
        }
        proof {
            lemma_push_fresh(self@.topics, topic@);
        }
        self.topics.push(topic.clone());
        assert(self@.topics =~= old(self)@.topics.push(topic@));
        assert(self@.remote =~= old(self)@.remote);
        true
    }

    /// Withdraws the node's interest in `topic`; tells whether there was
    /// any.
    pub fn unsubscribe(&mut self, topic: &Topic) -> (removed: bool)
        requires
            old(self).wf(),
        ensures
            final(self).wf(),
            removed == old(self)@.topics.contains(topic@),
            final(self)@ == old(self)@.without_topic(topic@),
    {
        proof {
            lemma_drop_value(self@.topics, topic@);
        }
        match find_topic(&self.topics, topic) {
            Some(i) => {
                proof {
                    lemma_index_of(self@.topics, i as int);
                }
                self.topics.remove(i);
                assert(self@.topics =~= old(self)@.topics.remove(i as int));
                assert(self@.remote =~= old(self)@.remote);
                true
            },
            None => false,
        }
    }

    /// Makes `peer` a target for every topic; tells whether that is new.
    pub fn add_explicit_peer(&mut self, peer: &PeerId) -> (added: bool)
        requires
            old(self).wf(),
        ensures
            final(self).wf(),
            added == (*peer != old(self)@.local && !old(self)@.explicit.contains(*peer)),
            final(self)@ == old(self)@.with_explicit(*peer),
    {
        if peer.same(&self.local) || find_peer(&self.explicit, peer).is_some() {
            return false;
        }
        proof {
            lemma_push_fresh(self@.explicit, *peer);
        }
        self.explicit.push(*peer);
        assert(self@.topics =~= old(self)@.topics);
        assert(self@.remote =~= old(self)@.remote);
        true
    }

    /// Ends what `add_explicit_peer` began; tells whether the peer was
    /// explicit.
    pub fn remove_explicit_peer(&mut self, peer: &PeerId) -> (removed: bool)
        requires
            old(self).wf(),
        ensures
            final(self).wf(),
            removed == old(self)@.explicit.contains(*peer),
            final(self)@ == old(self)@.without_explicit(*peer),
    {
        proof {
            lemma_drop_value(self@.explicit, *peer);
        }
        match find_peer(&self.explicit, peer) {
            Some(i) => {
                proof {
                    lemma_index_of(self@.explicit, i as int);
                }
                self.explicit.remove(i);
                assert(self@.topics =~= old(self)@.topics);
                assert(self@.remote =~= old(self)@.remote);
                true
            },
            None => false,
        }
    }

    /// Notes that `peer` told of its subscription to `topic`.
    pub fn on_peer_subscribed(&mut self, peer: &PeerId, topic: &Topic) -> (added: bool)
        requires
            old(self).wf(),
        ensures
            final(self).wf(),
            added == (*peer != old(self)@.local && !old(self)@.remote.contains((*peer, topic@))),
            final(self)@ == old(self)@.with_remote(*peer, topic@),
    {
        if peer.same(&self.local) || find_subscription(&self.remote, peer, topic).is_some() {
            return false;
        }
        proof {
            lemma_push_fresh(self@.remote, (*peer, topic@));
        }
        let ghost before = self@.remote;
        self.remote.push(Subscription { peer: *peer, topic: topic.clone() });
        assert(self@.remote =~= before.push((*peer, topic@)));
        assert(self@.topics =~= old(self)@.topics);
        assert forall|i: int| 0 <= i < self@.remote.len() implies (#[trigger] self@.remote[i]).0
            != self@.local by {
            if i < before.len() {
                assert(before[i].0 != self@.local);
            }
        }
        true
    }

    /// Notes that `peer` told of the end of its subscription to `topic`.
    pub fn on_peer_unsubscribed(&mut self, peer: &PeerId, topic: &Topic) -> (removed: bool)
        requires
            old(self).wf(),
        ensures
            final(self).wf(),
            removed == old(self)@.remote.contains((*peer, topic@)),
            final(self)@ == old(self)@.without_remote(*peer, topic@),
    {
        proof {
            lemma_drop_value(self@.remote, (*peer, topic@));
        }
        let ghost before = self@.remote;
        match find_subscription(&self.remote, peer, topic) {
            Some(i) => {
                proof {
                    lemma_index_of(before, i as int);
                }
                self.remote.remove(i);
                assert(self@.remote =~= before.remove(i as int));
                assert(self@.topics =~= old(self)@.topics);
                assert forall|j: int| 0 <= j < self@.remote.len() implies (
                #[trigger] self@.remote[j]).0 != self@.local by {
                    let k = if j < i { j } else { j + 1 };
                    assert(before[k].0 != self@.local);
                }
                true
            },
            None => false,
        }
    }

    /// Forgets every subscription of a peer that is gone.
    pub fn on_peer_gone(&mut self, peer: &PeerId)
        requires
            old(self).wf(),
        ensures
            final(self).wf(),
            final(self)@ == old(self)@.without_peer(*peer),
    {
        let ghost before = self@.remote;
        let ghost keep = not_of(*peer);
        let mut kept: Vec<Subscription> = Vec::new();
        let mut i: usize = 0;
        proof {
            lemma_filter_none(before, keep);
        }
        while i < self.remote.len()
            invariant
                i <= self.remote@.len(),
                before == subscription_views(self.remote@),
                keep == not_of(*peer),
                subscription_views(kept@) == before.take(i as int).filter(keep),
            decreases self.remote@.len() - i,
        {
            proof {
                lemma_filter_step(before, keep, i as int);
            }
            if !self.remote[i].peer.same(peer) {
                let sub = Subscription {
                    peer: self.remote[i].peer,
                    topic: self.remote[i].topic.clone(),
                };
                kept.push(sub);
                assert(subscription_views(kept@) =~= before.take(i + 1).filter(keep));
            }
            i += 1;
        }
        assert(before.take(before.len() as int) =~= before);
        self.remote = kept;
        proof {
            lemma_filter_facts(before, keep);
            let after = self@.remote;
            assert(self@.topics =~= old(self)@.topics);
            assert forall|j: int| 0 <= j < after.len() implies (#[trigger] after[j]).0
                != self@.local by {
                assert(after.contains(after[j]));
                assert(before.contains(after[j]));
                let k = choose|k: int| 0 <= k < before.len() && before[k] == after[j];
                assert(before[k].0 != self@.local);
            }
        }
    }

    /// How `peer` stands to `topic`.
    pub fn peer_state(&self, topic: &Topic, peer: &PeerId) -> (state: Option<PeerState>)
        ensures
            state == self@.peer_state(topic@, *peer),
    {
        if find_peer(&self.explicit, peer).is_some() {
            Some(PeerState::Explicit)
        } else if find_subscription(&self.remote, peer, topic).is_some() {
            if find_topic(&self.topics, topic).is_some() {
                Some(PeerState::Mesh)
            } else {
                Some(PeerState::Fanout)
            }
        } else {
            None
        }
    }

    /// The peers that a message on `topic` that came from `from` goes to.
    pub fn targets(&self, topic: &Topic, from: &PeerId) -> (out: Vec<PeerId>)
        ensures
            out@ == self@.targets(topic@, *from),
    {
        let ghost explicit = self@.explicit;
        let ghost remote = self@.remote;
        let ghost first = other_than(*from);
        let ghost second = further_subscriber(explicit, topic@, *from);
        let mut out: Vec<PeerId> = Vec::new();
        let mut i: usize = 0;
        proof {
            lemma_filter_none(explicit, first);
        }
        while i < self.explicit.len()
            invariant
                i <= self.explicit@.len(),
                explicit == self.explicit@,
                first == other_than(*from),
                out@ == explicit.take(i as int).filter(first),
            decreases self.explicit@.len() - i,
        {
            proof {
                lemma_filter_step(explicit, first, i as int);
            }
            if !self.explicit[i].same(from) {
                out.push(self.explicit[i]);
            }
            i += 1;
        }
        assert(explicit.take(explicit.len() as int) =~= explicit);
        let ghost head = out@;
        let mut j: usize = 0;
        proof {
            lemma_filter_none(remote, second);
            assert(out@ =~= head + firsts(remote.take(0).filter(second)));
        }
        while j < self.remote.len()
            invariant
                j <= self.remote@.len(),
                explicit == self.explicit@,
                remote == subscription_views(self.remote@),
                second == further_subscriber(explicit, topic@, *from),
                out@ == head + firsts(remote.take(j as int).filter(second)),
            decreases self.remote@.len() - j,
        {
            proof {
                lemma_filter_step(remote, second, j as int);
            }
            let sub = &self.remote[j];
            if sub.topic.same(topic) && !sub.peer.same(from) && find_peer(
                &self.explicit,
                &sub.peer,
            ).is_none() {
                out.push(sub.peer);
                assert(out@ =~= head + firsts(remote.take(j + 1).filter(second)));
            }
            j += 1;
        }
        assert(remote.take(remote.len() as int) =~= remote);
        out
    }

    /// Notes that the message `id` was seen.
    fn note_seen(&mut self, id: MessageId)
        requires
            old(self).wf(),
        ensures
            final(self).wf(),
            final(self)@ == (GossipView {
                seen: remember(old(self)@.seen, old(self)@.capacity, id),
                ..old(self)@
            }),
    {
        if self.seen.len() >= self.capacity {
            self.seen.remove(0);
            assert(self.seen@ =~= old(self).seen@.skip(1));
        }
        self.seen.push(id);
        assert(self@.topics =~= old(self)@.topics);
        assert(self@.remote =~= old(self)@.remote);
    }

    /// Takes in a message that the peer `from` sent. An invalid message,
    /// one seen before and one on a topic without local subscription
    /// change nothing and go nowhere; any other is delivered and relayed
    /// to the topic's peers except `from`.
    pub fn on_message(&mut self, from: &PeerId, message: &Message) -> (receipt: Receipt)
        requires
            old(self).wf(),
        ensures
            final(self).wf(),
            (final(self)@, receipt@) == old(self)@.receive(*from, message@),
            !valid(message@) ==> receipt == Receipt::Invalid && final(self)@ == old(self)@,
            receipt matches Receipt::Delivered { relay_to } ==> !relay_to@.contains(*from)
                && relay_to@.no_duplicates(),
    {
        proof {
            lemma_relay_spares_source(self@, *from, message@);
        }
        let valid = message.verify();
        self.on_checked_message(from, message, valid)
    }

    /// Takes in a message that the peer `from` sent, of which the caller
    /// has found out whether it is valid.
    pub fn on_checked_message(&mut self, from: &PeerId, message: &Message, valid: bool) -> (receipt:
        Receipt)
        requires
            old(self).wf(),
        ensures
            final(self).wf(),
            (final(self)@, receipt@) == old(self)@.accept(*from, message@, valid),
    {
        if !valid {
            return Receipt::Invalid;
        }
        if was_seen(&self.seen, &message.id) {
            return Receipt::Duplicate;
        }
        if find_topic(&self.topics, &message.topic).is_none() {
            return Receipt::NotSubscribed;
        }
        let relay_to = self.targets(&message.topic, from);
        self.note_seen(message.id);
        Receipt::Delivered { relay_to }
    }

    /// Publishes a payload on a topic: signs it, remembers the message and
    /// names the peers it goes to.
    pub fn publish(&mut self, identity: &NodeIdentity, topic: Topic, payload: Vec<u8>) -> (p:
        Publication)
        requires
            old(self).wf(),
            identity.spec_id() == old(self)@.local,
            old(self)@.next_sequence < u64::MAX,
        ensures
            final(self).wf(),
            valid(p.message@),
            p.message@ == signed_message(
                identity.spec_seed(),
                topic@,
                payload@,
                old(self)@.next_sequence,
            ),
            p.message@.sender == old(self)@.local,
            p.deliver == old(self)@.topics.contains(topic@),
            p.send_to@ == old(self)@.targets(topic@, old(self)@.local),
            final(self)@ == old(self)@.publish(p.message@.id),
    {
        let deliver = find_topic(&self.topics, &topic).is_some();
        let local = self.local;
        let send_to = self.targets(&topic, &local);
        let message = Message::create(identity, topic, payload, self.next_sequence);
        self.note_seen(message.id);
        self.next_sequence = self.next_sequence + 1;
        assert(self@.topics =~= old(self)@.topics);
        assert(self@.remote =~= old(self)@.remote);
        Publication { message, deliver, send_to }
    }
}

} // verus!
