//! A network of nodes as a whole, while one message floods it: what the
//! rules of each node add up to.

use crate::gossip::{lemma_targets, remember, GossipView, ReceiptView};
use crate::id::PeerId;
use crate::message::{valid, MessageId, MessageView};
use vstd::multiset::Multiset;
use vstd::prelude::*;

verus! {

/// A copy of the message on its way from one peer to another.
pub struct Flight {
    pub to: PeerId,
    pub from: PeerId,
}

/// The nodes of a network, the copies of the message that are on their
/// way, and how often each node has delivered the message to its
/// subscribers.
pub struct Network {
    pub nodes: Seq<GossipView>,
    pub flights: Multiset<Flight>,
    pub delivered: Seq<nat>,
}

/// The copies that `from` sends to the peers `to`.
pub open spec fn sent(from: PeerId, to: Seq<PeerId>) -> Multiset<Flight> {
    Seq::new(to.len(), |i: int| Flight { to: to[i], from }).to_multiset()
}

/// A copy is among those sent exactly when it comes from the sender and
/// goes to one of the peers.
pub proof fn lemma_sent(from: PeerId, to: Seq<PeerId>, f: Flight)
    ensures
        sent(from, to).contains(f) <==> (f.from == from && to.contains(f.to)),
{
    let s = Seq::new(to.len(), |i: int| Flight { to: to[i], from });
    s.to_multiset_ensures();
    if s.contains(f) {
        let i = choose|i: int| 0 <= i < s.len() && s[i] == f;
        assert(to[i] == f.to);
    }
    if f.from == from && to.contains(f.to) {
        let i = choose|i: int| 0 <= i < to.len() && to[i] == f.to;
        assert(s[i] == f);
    }
}

impl Network {
    /// Every node is well formed and has an identifier of its own.
    pub open spec fn sound(self) -> bool {
        &&& self.delivered.len() == self.nodes.len()
        &&& forall|i: int| 0 <= i < self.nodes.len() ==> (#[trigger] self.nodes[i]).well_formed()
        &&& forall|i: int, j: int|
            0 <= i < self.nodes.len() && 0 <= j < self.nodes.len() && i != j ==> (
            #[trigger] self.nodes[i]).local != (#[trigger] self.nodes[j]).local
    }

    /// Whether `peer` is a node of the network.
    pub open spec fn has_node(self, peer: PeerId) -> bool {
        exists|i: int| 0 <= i < self.nodes.len() && (#[trigger] self.nodes[i]).local == peer
    }

    /// Position of the node `peer`.
    pub open spec fn node_of(self, peer: PeerId) -> int {
        choose|i: int| 0 <= i < self.nodes.len() && (#[trigger] self.nodes[i]).local == peer
    }

    /// Whether the node at `i` has seen the message.
    pub open spec fn holds(self, i: int, m: MessageView) -> bool {
        0 <= i < self.nodes.len() && self.nodes[i].seen.contains(m.id)
    }

    /// Whether the node at `i` sends messages of `topic` to the node at
    /// `j`, which is subscribed to it.
    pub open spec fn link(self, i: int, j: int, topic: Seq<char>) -> bool {
        &&& 0 <= i < self.nodes.len()
        &&& 0 <= j < self.nodes.len()
        &&& i != j
        &&& self.nodes[i].eligible(topic, self.nodes[j].local)
        &&& self.nodes[j].topics.contains(topic)
    }

    /// Whether `path` leads from node to node along links.
    pub open spec fn connects(self, path: Seq<int>, topic: Seq<char>) -> bool {
        forall|k: int| 0 <= k < path.len() - 1 ==> #[trigger] self.link(path[k], path[k + 1], topic)
    }

    /// Nobody has seen the message yet and no copy is on its way.
    pub open spec fn fresh(self, m: MessageView) -> bool {
        &&& self.flights.len() == 0
        &&& forall|i: int| 0 <= i < self.nodes.len() ==> !#[trigger] self.holds(i, m)
        &&& forall|i: int| 0 <= i < self.delivered.len() ==> #[trigger] self.delivered[i] == 0
    }

    /// The network after the node at `p` published the message.
    pub open spec fn launch(self, p: int, m: MessageView) -> Network {
        Network {
            nodes: self.nodes.update(p, self.nodes[p].publish(m.id)),
            flights: self.flights.add(
                sent(self.nodes[p].local, self.nodes[p].targets(m.topic, self.nodes[p].local)),
            ),
            delivered: self.delivered.update(
                p,
                if self.nodes[p].topics.contains(m.topic) {
                    1nat
                } else {
                    0nat
                },
            ),
        }
    }

    /// The network after the copy `f` of the message arrived.
    pub open spec fn deliver(self, f: Flight, m: MessageView) -> Network {
        if self.has_node(f.to) {
            let j = self.node_of(f.to);
            let received = self.nodes[j].receive(f.from, m);
            match received.1 {
                ReceiptView::Delivered { relay_to } => Network {
                    nodes: self.nodes.update(j, received.0),
                    flights: self.flights.remove(f).add(sent(f.to, relay_to)),
                    delivered: self.delivered.update(j, self.delivered[j] + 1),
                },
                _ => Network {
                    nodes: self.nodes.update(j, received.0),
                    flights: self.flights.remove(f),
                    ..self
                },
            }
        } else {
            Network { flights: self.flights.remove(f), ..self }
        }
    }

    /// What holds from the moment the node at `p` published the valid
    /// message `m`: whoever sent a copy has seen the message; whoever has
    /// seen it has sent a copy to each of its links that has not; and a
    /// node has delivered the message once if it has seen it and is
    /// subscribed, and never otherwise.
    pub open spec fn flooding(self, p: int, m: MessageView) -> bool {
        &&& self.sound()
        &&& valid(m)
        &&& self.holds(p, m)
        &&& forall|f: Flight| #[trigger]
            self.flights.contains(f) ==> self.has_node(f.from) && self.holds(
                self.node_of(f.from),
                m,
            )
        &&& forall|i: int, j: int|
            self.holds(i, m) && #[trigger] self.link(i, j, m.topic) ==> self.holds(j, m)
                || self.flights.contains(
                Flight { to: self.nodes[j].local, from: self.nodes[i].local },
            )
        &&& forall|i: int|
            0 <= i < self.nodes.len() ==> #[trigger] self.delivered[i] == if self.holds(i, m)
                && self.nodes[i].topics.contains(m.topic) {
                1nat
            } else {
                0nat
            }
    }
}

/// A node stands at the position of its identifier.
pub proof fn lemma_node_of(net: Network, i: int)
    requires
        net.sound(),
        0 <= i < net.nodes.len(),
    ensures
        net.has_node(net.nodes[i].local),
        net.node_of(net.nodes[i].local) == i,
{
    let peer = net.nodes[i].local;
    assert(net.nodes[i].local == peer);
    let k = net.node_of(peer);
    assert(net.nodes[k].local == net.nodes[i].local);
}

/// Once a node has published a valid message that nobody had seen, the
/// network is flooding.
pub proof fn lemma_launch(net: Network, p: int, m: MessageView)
    requires
        net.sound(),
        net.fresh(m),
        valid(m),
        0 <= p < net.nodes.len(),
    ensures
        net.launch(p, m).flooding(p, m),
{
    let after = net.launch(p, m);
    let me = net.nodes[p].local;
    let targets = net.nodes[p].targets(m.topic, me);
    let seen = remember(net.nodes[p].seen, net.nodes[p].capacity, m.id);
    assert(net.nodes[p].well_formed());
    assert(seen[seen.len() - 1] == m.id);
    assert(after.holds(p, m));
    assert forall|i: int| 0 <= i < after.nodes.len() implies (#[trigger] after.nodes[i]).well_formed(
    ) by {
        assert(net.nodes[i].well_formed());
    }
    assert forall|i: int, j: int|
        0 <= i < after.nodes.len() && 0 <= j < after.nodes.len() && i != j implies (
    #[trigger] after.nodes[i]).local != (#[trigger] after.nodes[j]).local by {
        assert(net.nodes[i].local != net.nodes[j].local);
    }
    lemma_node_of(after, p);
    assert forall|f: Flight| #[trigger] after.flights.contains(f) implies after.has_node(f.from)
        && after.holds(after.node_of(f.from), m) by {
        lemma_sent(me, targets, f);
        assert(!net.flights.contains(f)) by {
            assert(net.flights.count(f) <= net.flights.len());
        }
    }
    lemma_targets(net.nodes[p], m.topic, me);
    assert forall|i: int, j: int|
        after.holds(i, m) && #[trigger] after.link(i, j, m.topic) implies after.holds(j, m)
        || after.flights.contains(
        Flight { to: after.nodes[j].local, from: after.nodes[i].local },
    ) by {
        if i != p {
            assert(net.holds(i, m));
        }
        let to = after.nodes[j].local;
        assert(net.nodes[j].local != net.nodes[p].local);
        assert(targets.contains(to));
        lemma_sent(me, targets, Flight { to, from: me });
    }
    assert forall|i: int| 0 <= i < after.nodes.len() implies #[trigger] after.delivered[i]
        == if after.holds(i, m) && after.nodes[i].topics.contains(m.topic) {
        1nat
    } else {
        0nat
    } by {
        if i != p {
            assert(!net.holds(i, m));
            assert(net.delivered[i] == 0);
        }
    }
}

/// The arrival of a copy leaves the network flooding.
pub proof fn lemma_deliver(net: Network, p: int, m: MessageView, f: Flight)
    requires
        net.flooding(p, m),
        net.flights.contains(f),
    ensures
        net.deliver(f, m).flooding(p, m),
{
    let after = net.deliver(f, m);
    if net.has_node(f.to) {
        let j = net.node_of(f.to);
        assert(net.nodes[j].local == f.to);
        assert(net.nodes[j].well_formed());
        let received = net.nodes[j].receive(f.from, m);
        let arrived = received.1 is Delivered;
        if arrived {
            let seen = received.0.seen;
            assert(seen[seen.len() - 1] == m.id);
        }
        assert(after.holds(j, m) == (net.holds(j, m) || arrived));
        assert forall|i: int| 0 <= i < after.nodes.len() implies (
        #[trigger] after.nodes[i]).well_formed() && after.nodes[i].local == net.nodes[i].local
            && after.nodes[i].topics == net.nodes[i].topics && after.nodes[i].explicit
            == net.nodes[i].explicit && after.nodes[i].remote == net.nodes[i].remote && (i != j
            ==> after.nodes[i] == net.nodes[i]) by {
            assert(net.nodes[i].well_formed());
        }
        assert forall|i: int, k: int|
            0 <= i < after.nodes.len() && 0 <= k < after.nodes.len() && i != k implies (
        #[trigger] after.nodes[i]).local != (#[trigger] after.nodes[k]).local by {
            assert(net.nodes[i].local != net.nodes[k].local);
        }
        assert forall|i: int| net.holds(i, m) implies after.holds(i, m) by {
            if i != j {
                assert(after.nodes[i] == net.nodes[i]);
            }
        }
        assert forall|g: Flight| #[trigger] after.flights.contains(g) implies after.has_node(g.from)
            && after.holds(after.node_of(g.from), m) by {
            if net.flights.contains(g) {
                let s = net.node_of(g.from);
                assert(net.has_node(g.from) && net.holds(s, m));
                assert(net.nodes[s].local == g.from);
                assert(after.nodes[s].local == g.from);
                lemma_node_of(after, s);
            } else {
                if arrived {
                    let relay_to = net.nodes[j].targets(m.topic, f.from);
                    lemma_sent(f.to, relay_to, g);
                    assert(g.from == f.to);
                    assert(after.nodes[j].local == g.from);
                    lemma_node_of(after, j);
                }
            }
        }
        assert forall|i: int, k: int|
            after.holds(i, m) && #[trigger] after.link(i, k, m.topic) implies after.holds(k, m)
            || after.flights.contains(
            Flight { to: after.nodes[k].local, from: after.nodes[i].local },
        ) by {
            let wanted = Flight { to: after.nodes[k].local, from: after.nodes[i].local };
            assert(net.link(i, k, m.topic));
            if net.holds(i, m) {
                if net.holds(k, m) {
                } else {
                    assert(net.flights.contains(wanted));
                    if wanted == f {
                        assert(net.nodes[k].local == f.to);
                        lemma_node_of(net, k);
                        assert(k == j);
                        assert(net.nodes[j].topics.contains(m.topic));
                        assert(arrived);
                    }
                }
            } else {
                assert(i == j && arrived);
                let relay_to = net.nodes[j].targets(m.topic, f.from);
                lemma_targets(net.nodes[j], m.topic, f.from);
                if net.nodes[k].local == f.from {
                    lemma_node_of(net, k);
                    assert(net.holds(k, m));
                } else {
                    assert(relay_to.contains(net.nodes[k].local));
                    lemma_sent(f.to, relay_to, wanted);
                }
            }
        }
        assert forall|i: int| 0 <= i < after.nodes.len() implies #[trigger] after.delivered[i]
            == if after.holds(i, m) && after.nodes[i].topics.contains(m.topic) {
            1nat
        } else {
            0nat
        } by {
            assert(net.delivered[i] == if net.holds(i, m) && net.nodes[i].topics.contains(
                m.topic,
            ) {
                1nat
            } else {
                0nat
            });
            if i != j {
                assert(after.nodes[i] == net.nodes[i]);
            }
        }
    } else {
        assert(after.nodes == net.nodes);
        assert forall|g: Flight| #[trigger] after.flights.contains(g) implies after.has_node(g.from)
            && after.holds(after.node_of(g.from), m) by {
            assert(net.flights.contains(g));
        }
        assert forall|i: int, k: int|
            after.holds(i, m) && #[trigger] after.link(i, k, m.topic) implies after.holds(k, m)
            || after.flights.contains(
            Flight { to: after.nodes[k].local, from: after.nodes[i].local },
        ) by {
            let wanted = Flight { to: net.nodes[k].local, from: net.nodes[i].local };
            assert(net.link(i, k, m.topic));
            if !net.holds(k, m) {
                assert(net.flights.contains(wanted));
                if wanted == f {
                    assert(net.nodes[k].local == f.to);
                    assert(net.has_node(f.to));
                }
            }
        }
        assert forall|i: int| 0 <= i < after.nodes.len() implies #[trigger] after.delivered[i]
            == if after.holds(i, m) && after.nodes[i].topics.contains(m.topic) {
            1nat
        } else {
            0nat
        } by {
            assert(net.delivered[i] == if net.holds(i, m) && net.nodes[i].topics.contains(
                m.topic,
            ) {
                1nat
            } else {
                0nat
            });
        }
    }
}

/// When no copy is on its way any more, every node that a path of links
/// leads to from the publisher has seen the message, and has delivered
/// it exactly once if it is subscribed.
pub proof fn lemma_flood_reaches(net: Network, p: int, m: MessageView, path: Seq<int>)
    requires
        net.flooding(p, m),
        net.flights.len() == 0,
        path.len() >= 1,
        path[0] == p,
        net.connects(path, m.topic),
    ensures
        net.holds(path.last(), m),
        net.nodes[path.last()].topics.contains(m.topic) ==> net.delivered[path.last()] == 1,
    decreases path.len(),
{
    if path.len() > 1 {
        let front = path.drop_last();
        assert forall|k: int| 0 <= k < front.len() - 1 implies #[trigger] net.link(
            front[k],
            front[k + 1],
            m.topic,
        ) by {
            assert(net.link(path[k], path[k + 1], m.topic));
        }
        lemma_flood_reaches(net, p, m, front);
        let i = front.last();
        let j = path.last();
        assert(net.link(path[path.len() - 2], path[path.len() - 2 + 1], m.topic));
        assert(net.link(i, j, m.topic));
        let wanted = Flight { to: net.nodes[j].local, from: net.nodes[i].local };
        assert(net.flights.count(wanted) <= net.flights.len());
    }
}

/// No node delivers the message more than once, and none that is not
/// subscribed to its topic delivers it at all.
pub proof fn lemma_delivered_at_most_once(net: Network, p: int, m: MessageView, i: int)
    requires
        net.flooding(p, m),
        0 <= i < net.nodes.len(),
    ensures
        net.delivered[i] <= 1,
        !net.nodes[i].topics.contains(m.topic) ==> net.delivered[i] == 0,
{
}

/// No copy goes back to the peer that the node got the message from.
pub proof fn lemma_no_copy_goes_back(net: Network, p: int, m: MessageView, f: Flight, g: Flight)
    requires
        net.flooding(p, m),
        net.flights.contains(f),
        net.deliver(f, m).flights.count(g) > net.flights.count(g),
    ensures
        g.from == f.to,
        g.to != f.from,
{
    if net.has_node(f.to) {
        let j = net.node_of(f.to);
        assert(net.nodes[j].local == f.to);
        assert(net.nodes[j].well_formed());
        let received = net.nodes[j].receive(f.from, m);
        match received.1 {
            ReceiptView::Delivered { relay_to } => {
                lemma_sent(f.to, relay_to, g);
                lemma_targets(net.nodes[j], m.topic, f.from);
            },
            _ => {},
        }
    }
}

/// Number of the nodes that have not seen the message `id`.
pub open spec fn unseen(nodes: Seq<GossipView>, id: MessageId) -> nat
    decreases nodes.len(),
{
    if nodes.len() == 0 {
        0
    } else {
        unseen(nodes.drop_last(), id) + if nodes.last().seen.contains(id) {
            0nat
        } else {
            1nat
        }
    }
}

/// When one node comes to see the message, one node fewer has not
/// seen it; when a node changes otherwise, as many have not as before.
pub proof fn lemma_unseen_update(nodes: Seq<GossipView>, id: MessageId, j: int, node: GossipView)
    requires
        0 <= j < nodes.len(),
    ensures
        nodes[j].seen.contains(id) == node.seen.contains(id) ==> unseen(nodes.update(j, node), id)
            == unseen(nodes, id),
        !nodes[j].seen.contains(id) && node.seen.contains(id) ==> unseen(
            nodes.update(j, node),
            id,
        ) + 1 == unseen(nodes, id),
    decreases nodes.len(),
{
    let after = nodes.update(j, node);
    if j == nodes.len() - 1 {
        assert(after.drop_last() =~= nodes.drop_last());
    } else {
        lemma_unseen_update(nodes.drop_last(), id, j, node);
        assert(after.drop_last() =~= nodes.drop_last().update(j, node));
    }
}

/// Every arrival brings the flood nearer to its end: either one node
/// more has seen the message, or as many have and one copy fewer is on
/// its way. So no run of arrivals goes on for ever.
pub proof fn lemma_deliver_decreases(net: Network, p: int, m: MessageView, f: Flight)
    requires
        net.flooding(p, m),
        net.flights.contains(f),
    ensures
        unseen(net.deliver(f, m).nodes, m.id) < unseen(net.nodes, m.id) || (unseen(
            net.deliver(f, m).nodes,
            m.id,
        ) == unseen(net.nodes, m.id) && net.deliver(f, m).flights.len() < net.flights.len()),
{
    assert(Multiset::singleton(f).subset_of(net.flights)) by {
        assert forall|g: Flight| Multiset::singleton(f).count(g) <= net.flights.count(g) by {
            if g != f {
                assert(Multiset::singleton(f).count(g) == 0);
            }
        }
    }
    assert(net.flights.remove(f).len() == net.flights.len() - 1);
    if net.has_node(f.to) {
        let j = net.node_of(f.to);
        assert(net.nodes[j].local == f.to);
        assert(net.nodes[j].well_formed());
        let received = net.nodes[j].receive(f.from, m);
        lemma_unseen_update(net.nodes, m.id, j, received.0);
        if received.1 is Delivered {
            let seen = received.0.seen;
            assert(seen[seen.len() - 1] == m.id);
        }
    }
}

/// The network after the copies of `schedule` arrived one after the
/// other.
pub open spec fn run(net: Network, schedule: Seq<Flight>, m: MessageView) -> Network
    decreases schedule.len(),
{
    if schedule.len() == 0 {
        net
    } else {
        run(net.deliver(schedule[0], m), schedule.skip(1), m)
    }
}

/// Whether each copy of `schedule` is on its way when its turn comes.
pub open spec fn feasible(net: Network, schedule: Seq<Flight>, m: MessageView) -> bool
    decreases schedule.len(),
{
    schedule.len() == 0 || (net.flights.contains(schedule[0]) && feasible(
        net.deliver(schedule[0], m),
        schedule.skip(1),
        m,
    ))
}

/// Whatever copies arrive in whatever order, the network stays
/// flooding: no node delivers the message twice.
pub proof fn lemma_run(net: Network, p: int, m: MessageView, schedule: Seq<Flight>)
    requires
        net.flooding(p, m),
        feasible(net, schedule, m),
    ensures
        run(net, schedule, m).flooding(p, m),
    decreases schedule.len(),
{
    if schedule.len() > 0 {
        lemma_deliver(net, p, m, schedule[0]);
        lemma_run(net.deliver(schedule[0], m), p, m, schedule.skip(1));
    }
}

/// The flood comes to an end: there is a run of arrivals after which no
/// copy is on its way, and then every node that a path of links leads
/// to from the publisher has the message.
pub proof fn lemma_flood_ends(net: Network, p: int, m: MessageView) -> (schedule: Seq<Flight>)
    requires
        net.flooding(p, m),
    ensures
        feasible(net, schedule, m),
        run(net, schedule, m).flooding(p, m),
        run(net, schedule, m).flights.len() == 0,
    decreases unseen(net.nodes, m.id), net.flights.len(),
{
    if net.flights.len() == 0 {
        Seq::empty()
    } else {
        let f = net.flights.choose();
        lemma_deliver(net, p, m, f);
        lemma_deliver_decreases(net, p, m, f);
        let rest = lemma_flood_ends(net.deliver(f, m), p, m);
        let schedule = seq![f] + rest;
        assert(schedule[0] == f);
        assert(schedule.skip(1) =~= rest);
        schedule
    }
}

} // verus!
