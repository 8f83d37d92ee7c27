use overlay_node::crypto::{content_id, NodeIdentity};
use overlay_node::discovery::{Address, Announcement};
use overlay_node::event::{Action, Event, Timer};
use overlay_node::id::PeerId;
use overlay_node::message::{Message, Topic};
use overlay_node::node::{Node, Settings};
use overlay_node::query::{Outcome, QueryError};
use overlay_node::record::Record;
use overlay_node::session::{announce_content, announce_report, example_topic, start_network};

fn addr(n: u8) -> Address {
    Address { ip: 0x0a00_0000 + n as u128, port: 4001 }
}

fn node(n: u8) -> Node {
    Node::new(NodeIdentity::from_seed([n; 32]), vec![addr(n)], Settings::standard()).unwrap()
}

fn id_of(n: u8) -> PeerId {
    NodeIdentity::from_seed([n; 32]).id()
}

fn presence(n: u8) -> Announcement {
    Announcement { sender: id_of(n), addrs: vec![addr(n)], ttl: 15 }
}

fn chat() -> Topic {
    Topic::new("chat")
}

/// Lets every node hear every other node's announcement.
fn introduce(nodes: &mut Vec<Node>, seeds: &[u8], now: u64) {
    for i in 0..nodes.len() {
        for other in seeds {
            nodes[i].on_announcement(presence(*other), now);
        }
    }
}

fn index_of(nodes: &Vec<Node>, peer: &PeerId) -> usize {
    nodes.iter().position(|n| n.identity.id() == *peer).unwrap()
}

/// Performs the actions of the node `actor` and all that follow from
/// them; gives back what was delivered and what ended, per node.
fn run(
    nodes: &mut Vec<Node>,
    actor: usize,
    actions: Vec<Action>,
    now: u64,
) -> (Vec<(usize, Message)>, Vec<(usize, u64, Outcome)>) {
    let mut delivered = Vec::new();
    let mut finished = Vec::new();
    let mut todo: Vec<(usize, Action)> = actions.into_iter().map(|a| (actor, a)).collect();
    let mut steps = 0;
    while !todo.is_empty() {
        steps += 1;
        assert!(steps < 10_000);
        let (at, action) = todo.remove(0);
        let own = nodes[at].identity.id();
        match action {
            Action::Gossip { message, deliver, peers } => {
                if deliver {
                    delivered.push((at, message.clone()));
                }
                for p in peers {
                    let to = index_of(nodes, &p);
                    let event = Event::Gossip { from: own, message: message.clone() };
                    for a in nodes[to].handle(event, now) {
                        todo.push((to, a));
                    }
                }
            }
            Action::AskPeers { query, peers, target } => {
                for p in peers {
                    let to = index_of(nodes, &p);
                    let event = Event::FindNode { from: own, request: query, target };
                    for reply in nodes[to].handle(event, now) {
                        match reply {
                            Action::ReplyPeers { to: back, request, closer } => {
                                assert_eq!(back, own);
                                assert_eq!(request, query);
                                let event = Event::Response { query, from: p, closer, found: None };
                                for a in nodes[at].handle(event, now) {
                                    todo.push((at, a));
                                }
                            }
                            other => todo.push((to, other)),
                        }
                    }
                }
            }
            Action::AskValue { query, peers, key } => {
                for p in peers {
                    let to = index_of(nodes, &p);
                    let event = Event::GetValue { from: own, request: query, key: key.clone() };
                    for reply in nodes[to].handle(event, now) {
                        match reply {
                            Action::ReplyValue { to: back, request, closer, found } => {
                                assert_eq!(back, own);
                                assert_eq!(request, query);
                                let event = Event::Response { query, from: p, closer, found };
                                for a in nodes[at].handle(event, now) {
                                    todo.push((at, a));
                                }
                            }
                            other => todo.push((to, other)),
                        }
                    }
                }
            }
            Action::AskStore { query, peers, record } => {
                for p in peers {
                    let to = index_of(nodes, &p);
                    let event =
                        Event::PutValue { from: own, request: query, record: record.clone() };
                    for reply in nodes[to].handle(event, now) {
                        match reply {
                            Action::ReplyStored { to: back, request, stored } => {
                                assert_eq!(back, own);
                                assert_eq!(request, query);
                                if stored {
                                    let event = Event::Stored { query, from: p };
                                    for a in nodes[at].handle(event, now) {
                                        todo.push((at, a));
                                    }
                                }
                            }
                            other => todo.push((to, other)),
                        }
                    }
                }
            }
            Action::Finished { query, outcome } => finished.push((at, query, outcome)),
            Action::Ping { peer, candidate } => {
                let event = Event::Liveness { peer, candidate, alive: true };
                for a in nodes[at].handle(event, now) {
                    todo.push((at, a));
                }
            }
            Action::Schedule { .. } | Action::Dial { .. } | Action::Tell { .. } => {}
            other => panic!("unexpected {:?}", other),
        }
    }
    (delivered, finished)
}

#[test]
fn standard_settings_make_a_node() {
    let s = Settings::standard();
    assert_eq!(s.interval, 5);
    assert_eq!(s.tolerance, 3);
    assert_eq!(s.bucket_size, 20);
    assert_eq!(s.fanout, 3);
    let n = node(1);
    assert_eq!(n.identity.id(), id_of(1));
    assert_eq!(n.discovery.len(), 0);
    assert_eq!(n.routing.peers(), Vec::<PeerId>::new());
    assert_eq!(n.store.len(), 0);
    assert_eq!(n.queries.len(), 0);
    assert_eq!(n.next_query, 0);
}

#[test]
fn unusable_settings_make_no_node() {
    let make = |change: fn(&mut Settings)| {
        let mut s = Settings::standard();
        change(&mut s);
        Node::new(NodeIdentity::from_seed([1; 32]), Vec::new(), s).is_some()
    };
    assert!(make(|_| {}));
    assert!(!make(|s| s.interval = 0));
    assert!(!make(|s| s.tolerance = 1));
    assert!(!make(|s| s.seen_capacity = 0));
    assert!(!make(|s| s.bucket_size = 0));
    assert!(!make(|s| s.fanout = 0));
    assert!(!make(|s| s.interval = u64::MAX));
    assert!(make(|s| s.hop_limit = 0));
}

#[test]
fn a_discovered_peer_is_dialled_and_made_a_target_and_a_route() {
    let mut n = node(1);
    let actions = n.on_announcement(presence(2), 100);
    assert_eq!(actions, vec![Action::Dial { peer: id_of(2) }]);
    assert!(n.discovery.contains(&id_of(2)));
    assert!(n.routing.contains(&id_of(2)));
    assert_eq!(n.gossip.targets(&chat(), &id_of(9)), vec![id_of(2)]);
    // heard again: no further dial
    assert_eq!(n.on_announcement(presence(2), 103), Vec::<Action>::new());
    // the node's own announcement does nothing
    assert_eq!(n.on_announcement(presence(1), 103), Vec::<Action>::new());
    assert!(!n.discovery.contains(&id_of(1)));
}

#[test]
fn an_expired_peer_is_reported_and_no_target_any_more() {
    let mut n = node(1);
    n.on_announcement(presence(2), 100);
    n.on_announcement(presence(3), 105);
    assert_eq!(n.handle(Event::Timer(Timer::Sweep), 114), Vec::<Action>::new());
    assert_eq!(
        n.handle(Event::Timer(Timer::Sweep), 115),
        vec![Action::PeerExpired(id_of(2))]
    );
    assert!(!n.discovery.contains(&id_of(2)));
    assert_eq!(n.gossip.targets(&chat(), &id_of(9)), vec![id_of(3)]);
    assert_eq!(
        n.handle(Event::Timer(Timer::Sweep), 120),
        vec![Action::PeerExpired(id_of(3))]
    );
    assert_eq!(n.gossip.targets(&chat(), &id_of(9)), Vec::<PeerId>::new());
}

#[test]
fn a_sweep_removes_expired_records() {
    let mut n = node(1);
    let record =
        Record { key: b"k".to_vec(), value: b"v".to_vec(), publisher: id_of(2), expiry: 50 };
    assert_eq!(
        n.handle(Event::PutValue { from: id_of(2), request: 4, record }, 10),
        vec![Action::ReplyStored { to: id_of(2), request: 4, stored: true }]
    );
    assert_eq!(n.store.len(), 1);
    n.handle(Event::Timer(Timer::Sweep), 49);
    assert_eq!(n.store.len(), 1);
    n.handle(Event::Timer(Timer::Sweep), 50);
    assert_eq!(n.store.len(), 0);
}

#[test]
fn the_broadcast_timer_announces_once_an_interval() {
    let mut n = node(1);
    assert!(n.is_in_time(100));
    assert_eq!(
        n.handle(Event::Timer(Timer::Broadcast), 100),
        vec![
            Action::Broadcast(Announcement { sender: id_of(1), addrs: vec![addr(1)], ttl: 15 }),
            Action::Schedule { timer: Timer::Broadcast, at: 105 },
        ]
    );
    assert_eq!(
        n.handle(Event::Timer(Timer::Broadcast), 102),
        vec![Action::Schedule { timer: Timer::Broadcast, at: 105 }]
    );
    assert_eq!(n.handle(Event::Timer(Timer::Broadcast), 105).len(), 2);
}

#[test]
fn time_runs_out_before_the_end() {
    let n = node(1);
    assert!(n.is_in_time(0));
    assert!(n.is_in_time(u64::MAX - 129600));
    assert!(!n.is_in_time(u64::MAX - 129599));
    assert!(!n.is_in_time(u64::MAX));
}

#[test]
fn three_nodes_on_one_network_each_receive_hello_once() {
    let mut nodes = vec![node(1), node(2), node(3)];
    introduce(&mut nodes, &[1, 2, 3], 100);
    for n in nodes.iter_mut() {
        assert_eq!(n.subscribe(&chat()), Vec::<Action>::new());
    }
    let actions = nodes[0].publish(chat(), b"hello".to_vec());
    let (delivered, _) = run(&mut nodes, 0, actions, 101);
    let mut by_node = [0usize; 3];
    for (at, m) in &delivered {
        assert_eq!(m.payload, b"hello".to_vec());
        assert_eq!(m.topic, chat());
        assert_eq!(m.sender, id_of(1));
        by_node[*at] += 1;
    }
    assert_eq!(by_node, [1, 1, 1]);
}

#[test]
fn a_message_reaches_a_peer_through_another() {
    // A knows B, B knows A and C, C knows B: C hears A through B
    let mut nodes = vec![node(1), node(2), node(3)];
    nodes[0].on_announcement(presence(2), 100);
    nodes[1].on_announcement(presence(1), 100);
    nodes[1].on_announcement(presence(3), 100);
    nodes[2].on_announcement(presence(2), 100);
    for n in nodes.iter_mut() {
        n.subscribe(&chat());
    }
    let actions = nodes[0].publish(chat(), b"hello".to_vec());
    let (delivered, _) = run(&mut nodes, 0, actions, 101);
    let at: Vec<usize> = delivered.iter().map(|(at, _)| *at).collect();
    assert_eq!(at, vec![0, 1, 2]);
}

#[test]
fn a_forged_message_goes_nowhere() {
    let mut nodes = vec![node(1), node(2), node(3)];
    introduce(&mut nodes, &[1, 2, 3], 100);
    for n in nodes.iter_mut() {
        n.subscribe(&chat());
    }
    let mut forged =
        Message::create(&NodeIdentity::from_seed([1; 32]), chat(), b"hello".to_vec(), 0);
    forged.payload = b"hullo".to_vec();
    let actions = nodes[1].handle(Event::Gossip { from: id_of(1), message: forged }, 101);
    assert_eq!(actions, Vec::<Action>::new());
}

#[test]
fn subscriptions_of_peers_are_taken_in() {
    let mut n = node(1);
    n.handle(Event::PeerSubscribed { peer: id_of(2), topic: chat() }, 0);
    n.handle(Event::PeerSubscribed { peer: id_of(3), topic: chat() }, 0);
    assert_eq!(n.gossip.targets(&chat(), &id_of(9)), vec![id_of(2), id_of(3)]);
    n.handle(Event::PeerUnsubscribed { peer: id_of(2), topic: chat() }, 0);
    assert_eq!(n.gossip.targets(&chat(), &id_of(9)), vec![id_of(3)]);
    n.handle(Event::PeerGone(id_of(3)), 0);
    assert_eq!(n.gossip.targets(&chat(), &id_of(9)), Vec::<PeerId>::new());
    assert_eq!(n.unsubscribe(&chat()), Vec::<Action>::new());
}

#[test]
fn find_node_names_the_closest_peers_but_the_asker() {
    let mut n = node(1);
    n.on_announcement(presence(2), 100);
    n.on_announcement(presence(3), 100);
    n.on_announcement(presence(4), 100);
    let target = id_of(3);
    let actions = n.handle(Event::FindNode { from: id_of(2), request: 8, target }, 101);
    match &actions[..] {
        [Action::ReplyPeers { to, request, closer }] => {
            assert_eq!(*to, id_of(2));
            assert_eq!(*request, 8);
            assert_eq!(closer.len(), 2);
            assert_eq!(closer[0], id_of(3));
            assert_eq!(closer[1], id_of(4));
        }
        other => panic!("unexpected {:?}", other),
    }
    // the asker is a route now
    let mut fresh = node(1);
    fresh.handle(Event::FindNode { from: id_of(2), request: 8, target }, 101);
    assert!(fresh.routing.contains(&id_of(2)));
}

#[test]
fn get_value_answers_with_the_record_held() {
    let mut n = node(1);
    let record =
        Record { key: b"k".to_vec(), value: b"v".to_vec(), publisher: id_of(2), expiry: 50 };
    n.handle(Event::PutValue { from: id_of(2), request: 1, record: record.clone() }, 10);
    let reply = |found| Action::ReplyValue {
        to: id_of(3),
        request: 2,
        closer: vec![id_of(2)],
        found,
    };
    assert_eq!(
        n.handle(Event::GetValue { from: id_of(3), request: 2, key: b"k".to_vec() }, 20),
        vec![reply(Some(record))]
    );
    assert_eq!(
        n.handle(Event::GetValue { from: id_of(3), request: 2, key: b"k".to_vec() }, 50),
        vec![reply(None)]
    );
    assert_eq!(
        n.handle(Event::GetValue { from: id_of(3), request: 2, key: b"x".to_vec() }, 20),
        vec![reply(None)]
    );
}

#[test]
fn a_node_stores_only_what_it_is_among_the_closest_for() {
    let mut settings = Settings::standard();
    settings.bucket_size = 1;
    let mut n = Node::new(NodeIdentity::from_seed([1; 32]), Vec::new(), settings).unwrap();
    let key = b"file123".to_vec();
    let target = content_id(&key);
    // find a peer that is closer to the key than the node is, and one that is farther
    let own = n.identity.id();
    let closer = (2..=255u8).find(|s| target.closer(&id_of(*s), &own)).unwrap();
    let farther = (2..=255u8).find(|s| target.closer(&own, &id_of(*s))).unwrap();
    let record = Record { key, value: b"v".to_vec(), publisher: id_of(9), expiry: 500 };
    assert!(n.is_responsible_for(&target));
    n.routing.insert(id_of(farther));
    assert!(n.is_responsible_for(&target));
    n.routing.insert(id_of(closer));
    assert!(!n.is_responsible_for(&target));
    let actions = n.handle(Event::PutValue { from: id_of(9), request: 3, record }, 10);
    assert_eq!(actions[0], Action::ReplyStored { to: id_of(9), request: 3, stored: false });
    assert_eq!(n.store.len(), 0);
}

#[test]
fn an_announcement_of_content_is_found_by_another_node() {
    let mut nodes = vec![node(1), node(2), node(3)];
    introduce(&mut nodes, &[1, 2, 3], 100);
    // A announces
    let (query, actions) = announce_content(&mut nodes[0], "file123", 100);
    assert_eq!(query, 0);
    assert_eq!(actions[0], Action::Schedule { timer: Timer::Queries, at: 160 });
    let (_, finished) = run(&mut nodes, 0, actions, 100);
    assert_eq!(finished.len(), 1);
    assert_eq!(finished[0].0, 0);
    assert_eq!(finished[0].1, query);
    assert!(matches!(finished[0].2, Outcome::Stored(n) if n >= 1));
    assert_eq!(
        announce_report("file123", &finished[0].2),
        Some("Content announced: file123".to_string())
    );
    assert_eq!(nodes[0].queries.len(), 0);
    // B looks it up before the record expires
    let (query, actions) = nodes[1].get_record(b"file123".to_vec(), 200);
    let (_, finished) = run(&mut nodes, 1, actions, 200);
    assert_eq!(finished.len(), 1);
    assert_eq!(finished[0].0, 1);
    assert_eq!(finished[0].1, query);
    match &finished[0].2 {
        Outcome::Found(record) => {
            assert_eq!(record.publisher, id_of(1));
            assert_eq!(record.key, b"file123".to_vec());
            assert_eq!(record.value, b"content".to_vec());
            assert_eq!(record.expiry, 100 + 129600);
        }
        other => panic!("unexpected {:?}", other),
    }
}

#[test]
fn a_lookup_after_the_record_expired_finds_nothing() {
    let mut nodes = vec![node(1), node(2), node(3)];
    introduce(&mut nodes, &[1, 2, 3], 100);
    let (_, actions) = announce_content(&mut nodes[0], "file123", 100);
    run(&mut nodes, 0, actions, 100);
    let later = 100 + 129600;
    let (_, actions) = nodes[1].get_record(b"file123".to_vec(), later);
    let (_, finished) = run(&mut nodes, 1, actions, later);
    assert_eq!(finished.len(), 1);
    assert_eq!(finished[0].2, Outcome::Failed(QueryError::NotFound));
}

#[test]
fn an_announcement_without_peers_fails() {
    let mut n = node(1);
    let (query, actions) = announce_content(&mut n, "file123", 100);
    assert_eq!(
        actions,
        vec![
            Action::Schedule { timer: Timer::Queries, at: 160 },
            Action::Finished { query, outcome: Outcome::Failed(QueryError::QuorumNotMet) },
        ]
    );
    assert_eq!(
        announce_report("file123", &Outcome::Failed(QueryError::QuorumNotMet)),
        Some("Failed to announce content: QuorumNotMet".to_string())
    );
    assert_eq!(announce_report("file123", &Outcome::Peers(Vec::new())), None);
}

#[test]
fn a_put_wants_a_quorum() {
    let mut n = node(1);
    assert!(n.put_record(b"k".to_vec(), b"v".to_vec(), 0, 100).is_none());
    assert_eq!(n.next_query, 0);
    assert!(n.put_record(b"k".to_vec(), b"v".to_vec(), 1, 100).is_some());
    assert_eq!(n.next_query, 1);
}

#[test]
fn the_queries_timer_ends_what_is_past_its_deadline() {
    let mut n = node(1);
    n.on_announcement(presence(2), 100);
    n.on_announcement(presence(3), 100);
    let (get, actions) = n.get_record(b"k".to_vec(), 100);
    assert_eq!(actions.len(), 2);
    assert!(matches!(&actions[1], Action::AskValue { query, peers, key }
        if *query == get && peers.len() == 2 && key == &b"k".to_vec()));
    let (find, actions) = n.find_peers(id_of(7), 110);
    assert!(matches!(&actions[1], Action::AskPeers { query, peers, target }
        if *query == find && peers.len() == 2 && *target == id_of(7)));
    assert_eq!(n.queries.len(), 2);
    assert_eq!(n.handle(Event::Timer(Timer::Queries), 159), Vec::<Action>::new());
    assert_eq!(
        n.handle(Event::Timer(Timer::Queries), 160),
        vec![Action::Finished { query: get, outcome: Outcome::Failed(QueryError::NotFound) }]
    );
    assert_eq!(n.queries.len(), 1);
    assert_eq!(
        n.handle(Event::Timer(Timer::Queries), 170),
        vec![Action::Finished { query: find, outcome: Outcome::Failed(QueryError::Timeout) }]
    );
    assert_eq!(n.queries.len(), 0);
}

#[test]
fn an_unreachable_peer_leaves_the_routing_table() {
    let mut n = node(1);
    n.on_announcement(presence(2), 100);
    let (query, _) = n.find_peers(id_of(7), 100);
    assert!(n.routing.contains(&id_of(2)));
    let actions = n.handle(Event::Unreachable { query, peer: id_of(2) }, 101);
    assert_eq!(
        actions,
        vec![Action::Finished { query, outcome: Outcome::Peers(Vec::new()) }]
    );
    assert!(!n.routing.contains(&id_of(2)));
}

#[test]
fn events_of_unknown_operations_do_nothing() {
    let mut n = node(1);
    assert_eq!(
        n.handle(
            Event::Response { query: 7, from: id_of(2), closer: vec![id_of(3)], found: None },
            1
        ),
        Vec::<Action>::new()
    );
    assert_eq!(n.handle(Event::Stored { query: 7, from: id_of(2) }, 1), Vec::<Action>::new());
    assert_eq!(
        n.handle(Event::Unreachable { query: 7, peer: id_of(2) }, 1),
        Vec::<Action>::new()
    );
    assert!(!n.routing.contains(&id_of(2)));
}

#[test]
fn start_network_subscribes_to_the_example_topic() {
    let n = start_network([4; 32], vec![addr(4)], Settings::standard()).unwrap();
    assert_eq!(example_topic(), Topic::new("example-topic"));
    assert!(n.gossip.is_subscribed(&example_topic()));
    assert!(!n.gossip.is_subscribed(&chat()));
    assert_eq!(n.identity.id(), id_of(4));
    let mut unusable = Settings::standard();
    unusable.fanout = 0;
    assert!(start_network([4; 32], vec![addr(4)], unusable).is_none());
}

#[test]
fn a_peer_that_connects_is_told_of_the_subscriptions() {
    let mut n = node(1);
    n.subscribe(&chat());
    n.subscribe(&Topic::new("news"));
    assert_eq!(
        n.handle(Event::Connected { peer: id_of(2) }, 0),
        vec![
            Action::Tell { peer: id_of(2), topic: chat(), subscribed: true },
            Action::Tell { peer: id_of(2), topic: Topic::new("news"), subscribed: true },
        ]
    );
    assert!(n.connections.is_connected(&id_of(2)));
    // once is enough
    assert_eq!(n.handle(Event::Connected { peer: id_of(2) }, 0), Vec::<Action>::new());
}

#[test]
fn connected_peers_are_told_of_a_change_of_subscription() {
    let mut n = node(1);
    n.handle(Event::Connected { peer: id_of(2) }, 0);
    n.handle(Event::Connected { peer: id_of(3) }, 0);
    assert_eq!(
        n.subscribe(&chat()),
        vec![
            Action::Tell { peer: id_of(2), topic: chat(), subscribed: true },
            Action::Tell { peer: id_of(3), topic: chat(), subscribed: true },
        ]
    );
    assert_eq!(n.subscribe(&chat()), Vec::<Action>::new());
    assert_eq!(
        n.unsubscribe(&chat()),
        vec![
            Action::Tell { peer: id_of(2), topic: chat(), subscribed: false },
            Action::Tell { peer: id_of(3), topic: chat(), subscribed: false },
        ]
    );
    assert_eq!(n.unsubscribe(&chat()), Vec::<Action>::new());
}

#[test]
fn a_peer_that_keeps_refusing_is_dropped() {
    let mut settings = Settings::standard();
    settings.refusal_limit = 2;
    let mut n = Node::new(NodeIdentity::from_seed([1; 32]), Vec::new(), settings).unwrap();
    n.handle(Event::Connected { peer: id_of(2) }, 0);
    n.handle(Event::PeerSubscribed { peer: id_of(2), topic: chat() }, 0);
    assert_eq!(n.gossip.targets(&chat(), &id_of(9)), vec![id_of(2)]);
    assert_eq!(n.handle(Event::Sent { peer: id_of(2), accepted: false }, 1), Vec::<Action>::new());
    assert_eq!(n.handle(Event::Sent { peer: id_of(2), accepted: true }, 2), Vec::<Action>::new());
    assert_eq!(n.handle(Event::Sent { peer: id_of(2), accepted: false }, 3), Vec::<Action>::new());
    assert_eq!(
        n.handle(Event::Sent { peer: id_of(2), accepted: false }, 4),
        vec![Action::Drop { peer: id_of(2) }]
    );
    assert!(!n.connections.is_connected(&id_of(2)));
    assert_eq!(n.gossip.targets(&chat(), &id_of(9)), Vec::<PeerId>::new());
    assert_eq!(n.handle(Event::Sent { peer: id_of(2), accepted: false }, 5), Vec::<Action>::new());
}

#[test]
fn a_connection_that_ended_is_forgotten() {
    let mut n = node(1);
    n.handle(Event::Connected { peer: id_of(2) }, 0);
    n.handle(Event::PeerGone(id_of(2)), 1);
    assert!(!n.connections.is_connected(&id_of(2)));
    assert_eq!(n.connections.peers(), Vec::<PeerId>::new());
}

#[test]
fn an_operation_is_started_for_a_key_at_a_given_place() {
    let mut n = node(1);
    n.on_announcement(presence(2), 100);
    let target = PeerId::new([0; 32]);
    let (query, actions) = n.start_query(
        overlay_node::query::QueryKind::FindNode,
        b"anything".to_vec(),
        target,
        None,
        1,
        100,
    );
    assert_eq!(query, 0);
    assert_eq!(
        actions,
        vec![
            Action::Schedule { timer: Timer::Queries, at: 160 },
            Action::AskPeers { query: 0, peers: vec![id_of(2)], target },
        ]
    );
    assert_eq!(n.queries.len(), 1);
    assert_eq!(n.queries[0].query.target(), target);
}
