//! Discovery of peers on the local network: presence announcements that
//! are heard insert or refresh a peer record, and a sweep removes the
//! records whose deadline has passed.

use crate::id::PeerId;
use crate::seqs::lemma_filter_step;
use vstd::prelude::*;

verus! {

/// A network address at which a peer was observed.
#[derive(Clone, Copy, Debug, PartialEq, Eq, Hash, Structural)]
pub struct Address {
    pub ip: u128,
    pub port: u16,
}

/// A peer that discovery currently holds.
#[derive(Debug, PartialEq, Eq)]
pub struct PeerRecord {
    pub id: PeerId,
    pub addrs: Vec<Address>,
    pub last_seen: u64,
    pub expiry: u64,
}

/// A peer record as mathematical values.
pub struct PeerRecordView {
    pub id: PeerId,
    pub addrs: Seq<Address>,
    pub last_seen: u64,
    pub expiry: u64,
}

impl View for PeerRecord {
    type V = PeerRecordView;

    open spec fn view(&self) -> PeerRecordView {
        PeerRecordView {
            id: self.id,
            addrs: self.addrs@,
            last_seen: self.last_seen,
            expiry: self.expiry,
        }
    }
}

/// A presence announcement as it is broadcast on the local network.
#[derive(Debug, PartialEq, Eq)]
pub struct Announcement {
    pub sender: PeerId,
    pub addrs: Vec<Address>,
    pub ttl: u64,
}

/// An announcement as mathematical values.
pub struct AnnouncementView {
    pub sender: PeerId,
    pub addrs: Seq<Address>,
    pub ttl: u64,
}

impl View for Announcement {
    type V = AnnouncementView;

    open spec fn view(&self) -> AnnouncementView {
        AnnouncementView { sender: self.sender, addrs: self.addrs@, ttl: self.ttl }
    }
}

/// A copy of a list of addresses.
pub fn copy_addrs(src: &Vec<Address>) -> (out: Vec<Address>)
    ensures
        out@ == src@,
{
    let mut out: Vec<Address> = Vec::new();
    let mut i: usize = 0;
    while i < src.len()
        invariant
            i <= src@.len(),
            out@ == src@.take(i as int),
        decreases src@.len() - i,
    {
        out.push(src[i]);
        assert(src@.take(i + 1) =~= src@.take(i as int).push(src@[i as int]));
        i += 1;
    }
    assert(src@.take(src@.len() as int) =~= src@);
    out
}

impl Clone for Announcement {
    fn clone(&self) -> (copy: Announcement)
        ensures
            copy@ == self@,
    {
        Announcement { sender: self.sender, addrs: copy_addrs(&self.addrs), ttl: self.ttl }
    }
}

impl Clone for PeerRecord {
    fn clone(&self) -> (copy: PeerRecord)
        ensures
            copy@ == self@,
    {
        PeerRecord {
            id: self.id,
            addrs: copy_addrs(&self.addrs),
            last_seen: self.last_seen,
            expiry: self.expiry,
        }
    }
}

/// What an announcement did to the peer set.
#[derive(Clone, Copy, Debug, PartialEq, Eq)]
pub enum DiscoveryEvent {
    /// The sender was not known and now is.
    Discovered(PeerId),
    /// The sender was known; its record has a new deadline.
    Refreshed(PeerId),
    /// The announcement was the node's own, named no address, or had a
    /// time to live that reaches past the end of time.
    Ignored,
    /// A sweep removed the peer's record, whose deadline had passed.
    Expired(PeerId),
}

/// The views of a vector of records.
pub open spec fn record_views(records: Seq<PeerRecord>) -> Seq<PeerRecordView> {
    Seq::new(records.len(), |i: int| records[i]@)
}

/// Whether a record for `id` is among `peers`.
pub open spec fn has_peer(peers: Seq<PeerRecordView>, id: PeerId) -> bool {
    exists|i: int| 0 <= i < peers.len() && #[trigger] peers[i].id == id
}

/// No two records are for the same peer.
pub open spec fn distinct_peers(peers: Seq<PeerRecordView>) -> bool {
    forall|i: int, j: int|
        0 <= i < peers.len() && 0 <= j < peers.len() && i != j ==> #[trigger] peers[i].id
            != #[trigger] peers[j].id
}

/// Position of the record for `id`.
pub open spec fn position_of(peers: Seq<PeerRecordView>, id: PeerId) -> int {
    choose|i: int| 0 <= i < peers.len() && #[trigger] peers[i].id == id
}

/// Whether a node with identifier `local` takes an announcement heard at
/// `now` into its peer set.
pub open spec fn accepts(local: PeerId, ann: AnnouncementView, now: u64) -> bool {
    &&& ann.sender != local
    &&& ann.addrs.len() > 0
    &&& now + ann.ttl <= u64::MAX
}

/// The record that an announcement heard at `now` gives its sender.
pub open spec fn announced_record(ann: AnnouncementView, now: u64) -> PeerRecordView {
    PeerRecordView {
        id: ann.sender,
        addrs: ann.addrs,
        last_seen: now,
        expiry: (now + ann.ttl) as u64,
    }
}

/// The peer set after an announcement was heard at `now`.
pub open spec fn after_announcement(
    local: PeerId,
    peers: Seq<PeerRecordView>,
    ann: AnnouncementView,
    now: u64,
) -> Seq<PeerRecordView> {
    if !accepts(local, ann, now) {
        peers
    } else if has_peer(peers, ann.sender) {
        peers.update(position_of(peers, ann.sender), announced_record(ann, now))
    } else {
        peers.push(announced_record(ann, now))
    }
}

/// What is reported of an announcement heard at `now`.
pub open spec fn announcement_event(
    local: PeerId,
    peers: Seq<PeerRecordView>,
    ann: AnnouncementView,
    now: u64,
) -> DiscoveryEvent {
    if !accepts(local, ann, now) {
        DiscoveryEvent::Ignored
    } else if has_peer(peers, ann.sender) {
        DiscoveryEvent::Refreshed(ann.sender)
    } else {
        DiscoveryEvent::Discovered(ann.sender)
    }
}

/// Whether a record's deadline has passed at `now`.
pub open spec fn expired(record: PeerRecordView, now: u64) -> bool {
    record.expiry <= now
}

/// The records that a sweep at `now` keeps, in their order.
pub open spec fn live_at(peers: Seq<PeerRecordView>, now: u64) -> Seq<PeerRecordView> {
    peers.filter(|r: PeerRecordView| !expired(r, now))
}

/// The records that a sweep at `now` removes, in their order.
pub open spec fn expired_at(peers: Seq<PeerRecordView>, now: u64) -> Seq<PeerRecordView> {
    peers.filter(|r: PeerRecordView| expired(r, now))
}

/// The identifiers of a sequence of records.
pub open spec fn ids_of(peers: Seq<PeerRecordView>) -> Seq<PeerId> {
    Seq::new(peers.len(), |i: int| peers[i].id)
}

/// A record is in the filtered sequence exactly when it is in the
/// sequence and passes the filter.
pub proof fn lemma_filter_has_peer(
    peers: Seq<PeerRecordView>,
    pred: spec_fn(PeerRecordView) -> bool,
    id: PeerId,
)
    requires
        distinct_peers(peers),
    ensures
        distinct_peers(peers.filter(pred)),
        has_peer(peers.filter(pred), id) == (has_peer(peers, id) && pred(
            peers[position_of(peers, id)],
        )),
    decreases peers.len(),
{
    reveal(Seq::filter);
    if peers.len() > 0 {
        let front = peers.drop_last();
        let last = peers.last();
        lemma_filter_has_peer(front, pred, id);
        lemma_filter_has_peer(front, pred, last.id);
        let f = front.filter(pred);
        if has_peer(front, last.id) {
            let i = position_of(front, last.id);
            assert(peers[i].id == peers[peers.len() - 1].id);
        }
        if has_peer(peers, id) {
            let p = position_of(peers, id);
            if p < front.len() {
                assert(front[p].id == id);
                let q = position_of(front, id);
                assert(peers[q].id == peers[p].id);
            } else {
                if has_peer(front, id) {
                    let q = position_of(front, id);
                    assert(peers[q].id == peers[p].id);
                }
            }
        } else {
            if has_peer(front, id) {
                let q = position_of(front, id);
                assert(peers[q].id == id);
            }
        }
        if pred(last) {
            let g = f.push(last);
            assert forall|i: int, j: int|
                0 <= i < g.len() && 0 <= j < g.len() && i != j implies #[trigger] g[i].id
                != #[trigger] g[j].id by {
                if i < f.len() && j < f.len() {
                } else if i < f.len() {
                    assert(f[i].id == f[i].id);
                    assert(has_peer(f, f[i].id));
                } else {
                    assert(f[j].id == f[j].id);
                    assert(has_peer(f, f[j].id));
                }
            }
            if has_peer(g, id) {
                let k = position_of(g, id);
                if k < f.len() {
                    assert(f[k].id == id);
                }
            }
            if has_peer(f, id) {
                let k = position_of(f, id);
                assert(g[k].id == id);
            }
            if last.id == id {
                assert(g[g.len() - 1].id == id);
            }
        }
    }
}

/// The discovery state as mathematical values.
pub struct DiscoveryView {
    pub local: PeerId,
    pub interval: u64,
    pub ttl: u64,
    pub next_broadcast: u64,
    pub peers: Seq<PeerRecordView>,
}

impl DiscoveryView {
    /// The state after an announcement was heard at `now`.
    pub open spec fn hear(self, ann: AnnouncementView, now: u64) -> DiscoveryView {
        DiscoveryView { peers: after_announcement(self.local, self.peers, ann, now), ..self }
    }

    /// What is reported of an announcement heard at `now`.
    pub open spec fn heard(self, ann: AnnouncementView, now: u64) -> DiscoveryEvent {
        announcement_event(self.local, self.peers, ann, now)
    }

    /// The state after a sweep at `now`.
    pub open spec fn sweep(self, now: u64) -> DiscoveryView {
        DiscoveryView { peers: live_at(self.peers, now), ..self }
    }

    /// The peers that a sweep at `now` removes.
    pub open spec fn gone(self, now: u64) -> Seq<PeerId> {
        ids_of(expired_at(self.peers, now))
    }

    /// Whether an announcement of the node is due at `now`.
    pub open spec fn due(self, now: u64) -> bool {
        now >= self.next_broadcast
    }

    /// The state after it was asked at `now` whether an announcement is
    /// due.
    pub open spec fn poll(self, now: u64) -> DiscoveryView {
        if self.due(now) {
            DiscoveryView { next_broadcast: (now + self.interval) as u64, ..self }
        } else {
            self
        }
    }
}

/// A node's view of the peers on its local network.
pub struct Discovery {
    local: PeerId,
    interval: u64,
    ttl: u64,
    next_broadcast: u64,
    peers: Vec<PeerRecord>,
}

impl View for Discovery {
    type V = DiscoveryView;

    open spec fn view(&self) -> DiscoveryView {
        DiscoveryView {
            local: self.local(),
            interval: self.interval(),
            ttl: self.ttl(),
            next_broadcast: self.next_broadcast(),
            peers: self.peers(),
        }
    }
}

impl Discovery {
    /// What holds of every state that `new` made and the methods changed.
    pub closed spec fn wf(&self) -> bool {
        &&& self.interval > 0
        &&& self.ttl >= 2 * self.interval
        &&& self.ttl % self.interval == 0
        &&& distinct_peers(record_views(self.peers@))
        &&& !has_peer(record_views(self.peers@), self.local)
        &&& forall|i: int| 0 <= i < self.peers@.len() ==> (#[trigger] self.peers@[i]).addrs@.len() > 0
    }

    /// The identifier under which the node announces itself.
    pub closed spec fn local(&self) -> PeerId {
        self.local
    }

    /// Time between two of the node's own announcements.
    pub closed spec fn interval(&self) -> u64 {
        self.interval
    }

    /// Time to live that the node's own announcements carry.
    pub closed spec fn ttl(&self) -> u64 {
        self.ttl
    }

    /// Time from which the next announcement is due.
    pub closed spec fn next_broadcast(&self) -> u64 {
        self.next_broadcast
    }

    /// The records held, oldest discovery first.
    pub closed spec fn peers(&self) -> Seq<PeerRecordView> {
        record_views(self.peers@)
    }

    /// A discovery state without peers, whose first announcement is due at
    /// once. The time to live is `tolerance` intervals; it must be at
    /// least two, so that one missed announcement does not expire a peer.
    pub fn new(local: PeerId, interval: u64, tolerance: u64) -> (made: Option<Discovery>)
        ensures
            made.is_some() == (interval > 0 && tolerance >= 2 && interval * tolerance <= u64::MAX),
            made.is_some() ==> {
                let d = made.unwrap();
                &&& d.wf()
                &&& d.local() == local
                &&& d.interval() == interval
                &&& d.ttl() == interval * tolerance
                &&& d.next_broadcast() == 0
                &&& d.peers() == Seq::<PeerRecordView>::empty()
            },
    {
        if interval == 0 || tolerance < 2 {
            return None;
        }
        if tolerance > u64::MAX / interval {
            assert(interval * tolerance > u64::MAX) by (nonlinear_arith)
                requires
                    interval > 0,
                    tolerance > u64::MAX / interval,
            ;
            return None;
        }
        assert(interval * tolerance <= u64::MAX) by (nonlinear_arith)
            requires
                interval > 0,
                tolerance <= u64::MAX / interval,
        ;
        let ttl: u64 = interval * tolerance;
        assert(ttl >= 2 * interval && ttl % interval == 0) by (nonlinear_arith)
            requires
                ttl == interval * tolerance,
                tolerance >= 2,
                interval > 0,
        ;
        let d = Discovery { local, interval, ttl, next_broadcast: 0, peers: Vec::new() };
        assert(d.peers() =~= Seq::<PeerRecordView>::empty());
        Some(d)
    }

    /// A well-formed state holds at most one record for each peer, each
    /// with an address, and none for the node itself.
    pub proof fn lemma_wf(&self)
        requires
            self.wf(),
        ensures
            distinct_peers(self.peers()),
            !has_peer(self.peers(), self.local()),
            forall|i: int|
                0 <= i < self.peers().len() ==> (#[trigger] self.peers()[i]).addrs.len() > 0,
            self.interval() > 0,
            self.ttl() >= 2 * self.interval(),
            self.ttl() % self.interval() == 0,
    {
        assert forall|i: int| 0 <= i < self.peers().len() implies (
        #[trigger] self.peers()[i]).addrs.len() > 0 by {
            assert(self.peers@[i].addrs@.len() > 0);
        }
    }

    /// Position of the record for `id`, if there is one.
    fn find(&self, id: &PeerId) -> (found: Option<usize>)
        requires
            self.wf(),
        ensures
            found.is_some() == has_peer(self.peers(), *id),
            found.is_some() ==> found.unwrap() < self.peers().len() && found.unwrap()
                == position_of(self.peers(), *id),
    {
        let mut i: usize = 0;
        while i < self.peers.len()
            invariant
                i <= self.peers@.len(),
                forall|j: int| 0 <= j < i ==> (#[trigger] self.peers()[j]).id != *id,
                self.peers() == record_views(self.peers@),
                distinct_peers(self.peers()),
            decreases self.peers@.len() - i,
        {
            if self.peers[i].id.same(id) {
                assert(self.peers()[i as int].id == *id);
                return Some(i);
            }
            i += 1;
        }
        None
    }

    /// Whether a record for `id` is held.
    pub fn contains(&self, id: &PeerId) -> (found: bool)
        requires
            self.wf(),
        ensures
            found == has_peer(self.peers(), *id),
    {
        self.find(id).is_some()
    }

    /// Number of records held.
    pub fn len(&self) -> (n: usize)
        ensures
            n == self.peers().len(),
    {
        self.peers.len()
    }

    /// The record at a position.
    pub fn record(&self, index: usize) -> (record: &PeerRecord)
        requires
            index < self.peers().len(),
        ensures
            record@ == self.peers()[index as int],
    {
        &self.peers[index]
    }

    /// Time from which the next announcement is due.
    pub fn next_time(&self) -> (at: u64)
        ensures
            at == self.next_broadcast(),
    {
        self.next_broadcast
    }

    /// Whether one of the node's own announcements is due at `now`; if so
    /// the next one is due an interval later.
    pub fn poll_broadcast(&mut self, now: u64) -> (due: bool)
        requires
            old(self).wf(),
            now + old(self).interval() <= u64::MAX,
        ensures
            final(self).wf(),
            due == (now >= old(self).next_broadcast()),
            final(self).next_broadcast() == if due {
                (now + old(self).interval()) as u64
            } else {
                old(self).next_broadcast()
            },
            final(self).local() == old(self).local(),
            final(self).interval() == old(self).interval(),
            final(self).ttl() == old(self).ttl(),
            final(self).peers() == old(self).peers(),
    {
        if now >= self.next_broadcast {
            self.next_broadcast = now + self.interval;
            true
        } else {
            false
        }
    }

    /// The announcement that the node broadcasts of itself.
    pub fn announcement(&self, addrs: Vec<Address>) -> (ann: Announcement)
        ensures
            ann@ == (AnnouncementView { sender: self.local(), addrs: addrs@, ttl: self.ttl() }),
    {
        Announcement { sender: self.local, addrs, ttl: self.ttl }
    }

    /// Takes in an announcement that was heard at `now`: the sender's
    /// record is made or replaced, with the deadline `now + ttl`.
    pub fn on_announcement(&mut self, ann: Announcement, now: u64) -> (event: DiscoveryEvent)
        requires
            old(self).wf(),
        ensures
            final(self).wf(),
            final(self).peers() == after_announcement(
                old(self).local(),
                old(self).peers(),
                ann@,
                now,
            ),
            event == announcement_event(old(self).local(), old(self).peers(), ann@, now),
            distinct_peers(final(self).peers()),
            final(self).local() == old(self).local(),
            final(self).interval() == old(self).interval(),
            final(self).ttl() == old(self).ttl(),
            final(self).next_broadcast() == old(self).next_broadcast(),
    {
        if ann.sender.same(&self.local) || ann.addrs.len() == 0 || ann.ttl > u64::MAX - now {
            return DiscoveryEvent::Ignored;
        }
        let sender = ann.sender;
        let ghost before = self.peers();
        let ghost made = announced_record(ann@, now);
        let record = PeerRecord {
            id: sender,
            addrs: ann.addrs,
            last_seen: now,
            expiry: now + ann.ttl,
        };
        assert(record@ == made);
        match self.find(&sender) {
            Some(i) => {
                self.peers[i] = record;
                proof {
                    let after = record_views(self.peers@);
                    assert(after =~= before.update(i as int, made));
                    assert forall|a: int, b: int|
                        0 <= a < after.len() && 0 <= b < after.len() && a != b implies (
                    #[trigger] after[a]).id != (#[trigger] after[b]).id by {
                        assert(after[a].id == before[a].id);
                        assert(after[b].id == before[b].id);
                    }
                    if has_peer(after, self.local) {
                        let k = position_of(after, self.local);
                        assert(before[k].id == self.local);
                    }
                }
                DiscoveryEvent::Refreshed(sender)
            },
            None => {
                self.peers.push(record);
                proof {
                    let after = record_views(self.peers@);
                    assert(after =~= before.push(made));
                    assert forall|a: int, b: int|
                        0 <= a < after.len() && 0 <= b < after.len() && a != b implies (
                    #[trigger] after[a]).id != (#[trigger] after[b]).id by {
                        if a < before.len() {
                            assert(before[a].id == after[a].id);
                        }
                        if b < before.len() {
                            assert(before[b].id == after[b].id);
                        }
                    }
                    if has_peer(after, self.local) {
                        let k = position_of(after, self.local);
                        if k < before.len() {
                            assert(before[k].id == self.local);
                        }
                    }
                }
                DiscoveryEvent::Discovered(sender)
            },
        }
    }

    /// Removes the records whose deadline has passed at `now` and returns
    /// the peers that they were for, in the order in which they were held.
    pub fn sweep(&mut self, now: u64) -> (gone: Vec<PeerId>)
        requires
            old(self).wf(),
        ensures
            final(self).wf(),
            final(self).peers() == live_at(old(self).peers(), now),
            gone@ == ids_of(expired_at(old(self).peers(), now)),
            distinct_peers(final(self).peers()),
            final(self).local() == old(self).local(),
            final(self).interval() == old(self).interval(),
            final(self).ttl() == old(self).ttl(),
            final(self).next_broadcast() == old(self).next_broadcast(),
    {
        let ghost before = self.peers();
        let ghost keep = |r: PeerRecordView| !expired(r, now);
        let ghost drop = |r: PeerRecordView| expired(r, now);
        let mut gone: Vec<PeerId> = Vec::new();
        let mut kept: Vec<PeerRecord> = Vec::new();
        let mut rest: Vec<PeerRecord> = Vec::new();
        std::mem::swap(&mut rest, &mut self.peers);
        let ghost total = before.len() as int;
        assert(before.take(0).filter(keep) =~= Seq::<PeerRecordView>::empty()) by {
            reveal(Seq::filter);
        }
        assert(before.take(0).filter(drop) =~= Seq::<PeerRecordView>::empty()) by {
            reveal(Seq::filter);
        }
        while rest.len() > 0
            invariant
                total == before.len(),
                rest@.len() <= total,
                keep == |r: PeerRecordView| !expired(r, now),
                drop == |r: PeerRecordView| expired(r, now),
                forall|j: int|
                    0 <= j < rest@.len() ==> (#[trigger] rest@[j])@ == before[total - rest@.len() + j],
                forall|j: int| 0 <= j < rest@.len() ==> (#[trigger] rest@[j]).addrs@.len() > 0,
                forall|j: int| 0 <= j < kept@.len() ==> (#[trigger] kept@[j]).addrs@.len() > 0,
                record_views(kept@) == before.take(total - rest@.len()).filter(keep),
                gone@ == ids_of(before.take(total - rest@.len()).filter(drop)),
            decreases rest@.len(),
        {
            let ghost k = total - rest@.len();
            let record = rest.remove(0);
            proof {
                lemma_filter_step(before, keep, k);
                lemma_filter_step(before, drop, k);
                assert(record@ == before[k]);
            }
            if record.expiry <= now {
                gone.push(record.id);
                assert(gone@ =~= ids_of(before.take(k + 1).filter(drop)));
            } else {
                kept.push(record);
                assert(record_views(kept@) =~= before.take(k + 1).filter(keep));
            }
        }
        assert(before.take(total) =~= before);
        self.peers = kept;
        proof {
            lemma_filter_has_peer(before, keep, self.local);
        }
        gone
    }
}

/// A peer that announces itself at `heard` is in the peer set from then on;
/// a sweep keeps it while its time to live has not run out and removes
/// it once it has, if no further announcement was heard.
pub proof fn lemma_announced_peer_lifetime(
    local: PeerId,
    peers: Seq<PeerRecordView>,
    ann: AnnouncementView,
    heard: u64,
    swept: u64,
)
    requires
        distinct_peers(peers),
        accepts(local, ann, heard),
    ensures
        has_peer(after_announcement(local, peers, ann, heard), ann.sender),
        swept < heard + ann.ttl ==> has_peer(
            live_at(after_announcement(local, peers, ann, heard), swept),
            ann.sender,
        ),
        swept >= heard + ann.ttl ==> !has_peer(
            live_at(after_announcement(local, peers, ann, heard), swept),
            ann.sender,
        ),
{
    let after = after_announcement(local, peers, ann, heard);
    let made = announced_record(ann, heard);
    lemma_announcement_keeps_distinct(local, peers, ann, heard);
    let at = if has_peer(peers, ann.sender) {
        position_of(peers, ann.sender)
    } else {
        peers.len() as int
    };
    assert(after[at].id == ann.sender);
    let p = position_of(after, ann.sender);
    assert(after[p].id == after[at].id);
    lemma_filter_has_peer(after, |r: PeerRecordView| !expired(r, swept), ann.sender);
}

/// An announcement leaves at most one record for each peer.
pub proof fn lemma_announcement_keeps_distinct(
    local: PeerId,
    peers: Seq<PeerRecordView>,
    ann: AnnouncementView,
    heard: u64,
)
    requires
        distinct_peers(peers),
    ensures
        distinct_peers(after_announcement(local, peers, ann, heard)),
{
    let after = after_announcement(local, peers, ann, heard);
    if accepts(local, ann, heard) {
        assert forall|a: int, b: int|
            0 <= a < after.len() && 0 <= b < after.len() && a != b implies #[trigger] after[a].id
            != #[trigger] after[b].id by {
            if has_peer(peers, ann.sender) {
                assert(after[a].id == peers[a].id);
                assert(after[b].id == peers[b].id);
            } else {
                if a < peers.len() {
                    assert(peers[a].id == after[a].id);
                }
                if b < peers.len() {
                    assert(peers[b].id == after[b].id);
                }
            }
        }
    }
}

} // verus!
