//! The open connections, and the rule that drops a peer whose sends
//! keep being refused.

use crate::id::PeerId;
use vstd::prelude::*;

verus! {

/// An open connection to an authenticated peer.
#[derive(Clone, Copy, Debug, PartialEq, Eq)]
pub struct Connection {
    pub peer: PeerId,
    /// Number of sends in a row that found the peer's buffer full.
    pub refused: u32,
}

/// The peers of a sequence of connections.
pub open spec fn peers_of(open: Seq<Connection>) -> Seq<PeerId> {
    Seq::new(open.len(), |i: int| open[i].peer)
}

/// Whether a connection to `peer` is among `open`.
pub open spec fn connected(open: Seq<Connection>, peer: PeerId) -> bool {
    exists|i: int| 0 <= i < open.len() && (#[trigger] open[i]).peer == peer
}

/// Position of the connection to `peer`.
pub open spec fn connection_of(open: Seq<Connection>, peer: PeerId) -> int {
    choose|i: int| 0 <= i < open.len() && (#[trigger] open[i]).peer == peer
}

/// No two connections are to the same peer.
pub open spec fn distinct_connections(open: Seq<Connection>) -> bool {
    forall|i: int, j: int|
        0 <= i < open.len() && 0 <= j < open.len() && i != j ==> (#[trigger] open[i]).peer != (
        #[trigger] open[j]).peer
}

/// The connections after one to `peer` was opened.
pub open spec fn after_open(open: Seq<Connection>, peer: PeerId) -> Seq<Connection> {
    if connected(open, peer) {
        open
    } else {
        open.push(Connection { peer, refused: 0 })
    }
}

/// The connections after the one to `peer` was closed.
pub open spec fn after_close(open: Seq<Connection>, peer: PeerId) -> Seq<Connection> {
    if connected(open, peer) {
        open.remove(connection_of(open, peer))
    } else {
        open
    }
}

/// Whether a send to `peer` that was refused ends its connection: it
/// does when it is the `limit`th refused in a row.
pub open spec fn to_be_dropped(open: Seq<Connection>, limit: u32, peer: PeerId) -> bool {
    connected(open, peer) && open[connection_of(open, peer)].refused + 1 >= limit
}

/// The connections after a send to `peer` was taken, if `accepted`, or
/// refused.
pub open spec fn after_send(open: Seq<Connection>, limit: u32, peer: PeerId, accepted: bool) -> Seq<
    Connection,
> {
    if !connected(open, peer) {
        open
    } else if accepted {
        open.update(connection_of(open, peer), Connection { peer, refused: 0 })
    } else if to_be_dropped(open, limit, peer) {
        open.remove(connection_of(open, peer))
    } else {
        open.update(
            connection_of(open, peer),
            Connection { peer, refused: (open[connection_of(open, peer)].refused + 1) as u32 },
        )
    }
}

/// The connections after `count` sends to `peer` in a row were refused.
pub open spec fn after_refusals(open: Seq<Connection>, limit: u32, peer: PeerId, count: nat) -> Seq<
    Connection,
>
    decreases count,
{
    if count == 0 {
        open
    } else {
        after_refusals(after_send(open, limit, peer, false), limit, peer, (count - 1) as nat)
    }
}

/// A send leaves at most one connection to each peer, and changes none
/// but the one it went to.
pub proof fn lemma_send_keeps_distinct(
    open: Seq<Connection>,
    limit: u32,
    peer: PeerId,
    accepted: bool,
)
    requires
        distinct_connections(open),
    ensures
        distinct_connections(after_send(open, limit, peer, accepted)),
        forall|other: PeerId|
            other != peer ==> (connected(after_send(open, limit, peer, accepted), other)
                <==> #[trigger] connected(open, other)),
        !accepted && to_be_dropped(open, limit, peer) ==> !connected(
            after_send(open, limit, peer, accepted),
            peer,
        ),
        connected(after_send(open, limit, peer, accepted), peer) ==> connected(open, peer),
        connected(open, peer) && !accepted && !to_be_dropped(open, limit, peer) ==> connected(
            after_send(open, limit, peer, accepted),
            peer,
        ) && after_send(open, limit, peer, accepted)[connection_of(
            after_send(open, limit, peer, accepted),
            peer,
        )].refused == open[connection_of(open, peer)].refused + 1,
{
    let after = after_send(open, limit, peer, accepted);
    if connected(open, peer) {
        let at = connection_of(open, peer);
        if !accepted && to_be_dropped(open, limit, peer) {
            assert forall|i: int, j: int|
                0 <= i < after.len() && 0 <= j < after.len() && i != j implies (
            #[trigger] after[i]).peer != (#[trigger] after[j]).peer by {
                let a = if i < at { i } else { i + 1 };
                let b = if j < at { j } else { j + 1 };
                assert(after[i] == open[a] && after[j] == open[b]);
            }
            if connected(after, peer) {
                let k = connection_of(after, peer);
                let a = if k < at { k } else { k + 1 };
                assert(after[k] == open[a]);
                assert(open[a].peer == open[at].peer);
            }
            assert forall|other: PeerId| other != peer implies (connected(after, other)
                <==> #[trigger] connected(open, other)) by {
                if connected(after, other) {
                    let k = connection_of(after, other);
                    let a = if k < at { k } else { k + 1 };
                    assert(open[a].peer == other);
                }
                if connected(open, other) {
                    let k = connection_of(open, other);
                    let a = if k < at { k } else { k - 1 };
                    assert(after[a] == open[k]);
                    assert(after[a].peer == other);
                }
            }
        } else {
            assert forall|i: int, j: int|
                0 <= i < after.len() && 0 <= j < after.len() && i != j implies (
            #[trigger] after[i]).peer != (#[trigger] after[j]).peer by {
                assert(after[i].peer == open[i].peer && after[j].peer == open[j].peer);
            }
            assert(after[at].peer == peer);
            let k = connection_of(after, peer);
            assert(after[k].peer == after[at].peer);
            assert forall|other: PeerId| other != peer implies (connected(after, other)
                <==> #[trigger] connected(open, other)) by {
                if connected(after, other) {
                    let k = connection_of(after, other);
                    assert(open[k].peer == other);
                }
                if connected(open, other) {
                    let k = connection_of(open, other);
                    assert(after[k].peer == other);
                }
            }
        }
    }
}

/// Refusals never open a connection.
pub proof fn lemma_refusals_open_nothing(
    open: Seq<Connection>,
    limit: u32,
    peer: PeerId,
    count: nat,
)
    requires
        distinct_connections(open),
        !connected(open, peer),
    ensures
        !connected(after_refusals(open, limit, peer, count), peer),
    decreases count,
{
    if count > 0 {
        lemma_refusals_open_nothing(open, limit, peer, (count - 1) as nat);
    }
}

/// A peer whose buffer stays full is dropped in the end: after `limit`
/// sends in a row were refused, no connection to it is left.
pub proof fn lemma_blocked_peer_is_dropped(
    open: Seq<Connection>,
    limit: u32,
    peer: PeerId,
    count: nat,
)
    requires
        distinct_connections(open),
        connected(open, peer) ==> count + open[connection_of(open, peer)].refused >= limit,
        count >= 1,
    ensures
        !connected(after_refusals(open, limit, peer, count), peer),
    decreases count,
{
    let next = after_send(open, limit, peer, false);
    lemma_send_keeps_distinct(open, limit, peer, false);
    if !connected(open, peer) {
        lemma_refusals_open_nothing(open, limit, peer, count);
    } else if to_be_dropped(open, limit, peer) {
        lemma_refusals_open_nothing(next, limit, peer, (count - 1) as nat);
    } else {
        lemma_blocked_peer_is_dropped(next, limit, peer, (count - 1) as nat);
    }
}

/// The set of open connections.
pub struct Connections {
    open: Vec<Connection>,
    limit: u32,
}

impl Connections {
    /// The open connections, oldest first.
    pub closed spec fn view(&self) -> Seq<Connection> {
        self.open@
    }

    /// Number of refused sends in a row after which a peer is dropped.
    pub closed spec fn limit(&self) -> u32 {
        self.limit
    }

    /// What holds of every set of connections: there is one to a peer at
    /// most.
    pub open spec fn wf(&self) -> bool {
        distinct_connections(self.view())
    }

    /// No connections, with the limit of refusals given.
    pub fn new(limit: u32) -> (made: Connections)
        ensures
            made.wf(),
            made.view() == Seq::<Connection>::empty(),
            made.limit() == limit,
    {
        Connections { open: Vec::new(), limit }
    }

    fn find(&self, peer: &PeerId) -> (found: Option<usize>)
        requires
            self.wf(),
        ensures
            found.is_some() == connected(self.view(), *peer),
            found.is_some() ==> found.unwrap() < self.view().len() && found.unwrap()
                == connection_of(self.view(), *peer),
    {
        let mut i: usize = 0;
        while i < self.open.len()
            invariant
                i <= self.open@.len(),
                self.wf(),
                forall|j: int| 0 <= j < i ==> (#[trigger] self.open@[j]).peer != *peer,
            decreases self.open@.len() - i,
        {
            if self.open[i].peer.same(peer) {
                proof {
                    assert(self.open@[i as int].peer == *peer);
                    let p = connection_of(self.view(), *peer);
                    assert(self.open@[p].peer == self.open@[i as int].peer);
                }
                return Some(i);
            }
            i += 1;
        }
        None
    }

    /// The peers to which a connection is open, oldest first.
    pub fn peers(&self) -> (peers: Vec<PeerId>)
        ensures
            peers@ == peers_of(self.view()),
    {
        let mut peers: Vec<PeerId> = Vec::new();
        let mut i: usize = 0;
        while i < self.open.len()
            invariant
                i <= self.open@.len(),
                peers@ == peers_of(self.open@.take(i as int)),
            decreases self.open@.len() - i,
        {
            peers.push(self.open[i].peer);
            assert(peers@ =~= peers_of(self.open@.take(i + 1)));
            i += 1;
        }
        assert(self.open@.take(self.open@.len() as int) =~= self.open@);
        peers
    }

    /// Whether a connection to `peer` is open.
    pub fn is_connected(&self, peer: &PeerId) -> (r: bool)
        requires
            self.wf(),
        ensures
            r == connected(self.view(), *peer),
    {
        self.find(peer).is_some()
    }

    /// Notes that a connection to `peer` was opened, after its
    /// handshake; tells whether that is new.
    pub fn open(&mut self, peer: PeerId) -> (added: bool)
        requires
            old(self).wf(),
        ensures
            final(self).wf(),
            final(self).limit() == old(self).limit(),
            added == !connected(old(self).view(), peer),
            final(self).view() == after_open(old(self).view(), peer),
    {
        if self.find(&peer).is_some() {
            return false;
        }
        let ghost before = self.view();
        self.open.push(Connection { peer, refused: 0 });
        proof {
            let after = self.view();
            assert forall|i: int, j: int|
                0 <= i < after.len() && 0 <= j < after.len() && i != j implies (
            #[trigger] after[i]).peer != (#[trigger] after[j]).peer by {
                if i < before.len() {
                    assert(before[i].peer == after[i].peer);
                }
                if j < before.len() {
                    assert(before[j].peer == after[j].peer);
                }
            }
        }
        true
    }

    /// Notes that the connection to `peer` was closed; tells whether
    /// there was one.
    pub fn close(&mut self, peer: &PeerId) -> (removed: bool)
        requires
            old(self).wf(),
        ensures
            final(self).wf(),
            final(self).limit() == old(self).limit(),
            removed == connected(old(self).view(), *peer),
            final(self).view() == after_close(old(self).view(), *peer),
    {
        match self.find(peer) {
            Some(i) => {
                let ghost before = self.view();
                self.open.remove(i);
                proof {
                    let after = self.view();
                    assert forall|a: int, b: int|
                        0 <= a < after.len() && 0 <= b < after.len() && a != b implies (
                    #[trigger] after[a]).peer != (#[trigger] after[b]).peer by {
                        let x = if a < i { a } else { a + 1 };
                        let y = if b < i { b } else { b + 1 };
                        assert(after[a] == before[x] && after[b] == before[y]);
                    }
                }
                true
            },
            None => false,
        }
    }

    /// Notes how a send to `peer` went: taken, if `accepted`, or refused
    /// because the peer's buffer was full. Tells whether the connection
    /// is to be dropped, which it is at the `limit`th refusal in a row.
    pub fn on_send(&mut self, peer: &PeerId, accepted: bool) -> (dropped: bool)
        requires
            old(self).wf(),
        ensures
            final(self).wf(),
            final(self).limit() == old(self).limit(),
            dropped == (!accepted && to_be_dropped(old(self).view(), old(self).limit(), *peer)),
            final(self).view() == after_send(
                old(self).view(),
                old(self).limit(),
                *peer,
                accepted,
            ),
    {
        proof {
            lemma_send_keeps_distinct(self.view(), self.limit, *peer, accepted);
        }
        match self.find(peer) {
            Some(i) => {
                if accepted {
                    self.open[i] = Connection { peer: *peer, refused: 0 };
                    false
                } else if self.open[i].refused >= self.limit || self.open[i].refused + 1
                    >= self.limit {
                    self.open.remove(i);
                    true
                } else {
                    let refused = self.open[i].refused + 1;
                    self.open[i] = Connection { peer: *peer, refused };
                    false
                }
            },
            None => false,
        }
    }
}

} // verus!
