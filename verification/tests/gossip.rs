use overlay_node::crypto::NodeIdentity;
use overlay_node::gossip::{Gossip, PeerState, Receipt};
use overlay_node::id::PeerId;
use overlay_node::message::{encode_signed, message_id, Message, Topic};

fn identity(n: u8) -> NodeIdentity {
    NodeIdentity::from_seed([n; 32])
}

fn id(n: u8) -> PeerId {
    let mut bytes = [0u8; 32];
    bytes[0] = n;
    PeerId::new(bytes)
}

fn chat() -> Topic {
    Topic::new("chat")
}

fn gossip_of(identity: &NodeIdentity, capacity: usize) -> Gossip {
    Gossip::new(identity.id(), capacity).unwrap()
}

fn message(from: u8, sequence: u64, text: &str) -> Message {
    Message::create(&identity(from), chat(), text.as_bytes().to_vec(), sequence)
}

#[test]
fn new_wants_room_for_one_identifier() {
    assert!(Gossip::new(id(1), 0).is_none());
    assert!(Gossip::new(id(1), 1).is_some());
}

#[test]
fn a_created_message_verifies() {
    let m = message(1, 0, "hello");
    assert!(m.verify());
    assert_eq!(m.sender, identity(1).id());
    assert_eq!(m.sender_key, identity(1).public_key());
    assert_eq!(m.sequence, 0);
    assert_eq!(m.payload, b"hello".to_vec());
    assert_eq!(m.topic, chat());
    assert_eq!(m.id, message_id(&m.sender, 0, &m.payload));
}

#[test]
fn the_signature_covers_topic_payload_sender_and_sequence() {
    let sender = identity(1).id();
    let covered = encode_signed(&chat(), &b"hi".to_vec(), &sender, 0x0102);
    let mut expected = Vec::new();
    expected.extend_from_slice(&4u64.to_le_bytes());
    expected.extend_from_slice(b"chat");
    expected.extend_from_slice(&2u64.to_le_bytes());
    expected.extend_from_slice(b"hi");
    expected.extend_from_slice(&sender.bytes);
    expected.extend_from_slice(&0x0102u64.to_le_bytes());
    assert_eq!(covered, expected);
    let m = Message::create(&identity(1), chat(), b"hi".to_vec(), 0x0102);
    assert_eq!(m.signature, identity(1).sign(&expected));
}

#[test]
fn a_changed_message_does_not_verify() {
    let m = message(1, 0, "hello");
    let mut payload = m.clone();
    payload.payload = b"hellp".to_vec();
    assert!(!payload.verify());
    let mut topic = m.clone();
    topic.topic = Topic::new("chit");
    assert!(!topic.verify());
    let mut sequence = m.clone();
    sequence.sequence = 1;
    assert!(!sequence.verify());
    let mut signature = m.clone();
    signature.signature[0] ^= 1;
    assert!(!signature.verify());
    let mut sender = m.clone();
    sender.sender = identity(2).id();
    assert!(!sender.verify());
    let mut key = m.clone();
    key.sender_key = identity(2).public_key();
    assert!(!key.verify());
    let mut ident = m.clone();
    ident.id.bytes[0] ^= 1;
    assert!(!ident.verify());
}

#[test]
fn a_message_signed_by_another_key_is_invalid() {
    // the forger claims to be node 1 but signs with its own key
    let honest = message(1, 0, "hello");
    let forged_by = identity(2);
    let covered = encode_signed(&honest.topic, &honest.payload, &honest.sender, 0);
    let mut forged = honest.clone();
    forged.signature = forged_by.sign(&covered);
    assert!(!forged.verify());
}

#[test]
fn an_invalid_message_is_neither_delivered_nor_relayed() {
    let me = identity(9);
    let mut g = gossip_of(&me, 8);
    g.subscribe(&chat());
    g.add_explicit_peer(&id(2));
    let mut m = message(1, 0, "hello");
    m.payload = b"HELLO".to_vec();
    assert_eq!(g.on_message(&id(3), &m), Receipt::Invalid);
    // nothing was remembered: the true message is still new
    let good = message(1, 0, "hello");
    assert_eq!(g.on_message(&id(3), &good), Receipt::Delivered { relay_to: vec![id(2)] });
}

#[test]
fn a_message_is_delivered_once() {
    let me = identity(9);
    let mut g = gossip_of(&me, 8);
    g.subscribe(&chat());
    g.add_explicit_peer(&id(2));
    g.add_explicit_peer(&id(3));
    let m = message(1, 0, "hello");
    assert_eq!(g.on_message(&id(2), &m), Receipt::Delivered { relay_to: vec![id(3)] });
    assert_eq!(g.on_message(&id(3), &m), Receipt::Duplicate);
    assert_eq!(g.on_message(&id(2), &m), Receipt::Duplicate);
}

#[test]
fn a_message_is_not_relayed_to_where_it_came_from() {
    let me = identity(9);
    let mut g = gossip_of(&me, 8);
    g.subscribe(&chat());
    g.add_explicit_peer(&id(2));
    g.add_explicit_peer(&id(3));
    g.on_peer_subscribed(&id(4), &chat());
    let from_explicit = message(1, 0, "a");
    assert_eq!(
        g.on_message(&id(3), &from_explicit),
        Receipt::Delivered { relay_to: vec![id(2), id(4)] }
    );
    let from_subscriber = message(1, 1, "b");
    assert_eq!(
        g.on_message(&id(4), &from_subscriber),
        Receipt::Delivered { relay_to: vec![id(2), id(3)] }
    );
    let from_stranger = message(1, 2, "c");
    assert_eq!(
        g.on_message(&id(7), &from_stranger),
        Receipt::Delivered { relay_to: vec![id(2), id(3), id(4)] }
    );
}

#[test]
fn without_subscription_a_message_is_dropped_and_not_remembered() {
    let me = identity(9);
    let mut g = gossip_of(&me, 8);
    g.add_explicit_peer(&id(2));
    let m = message(1, 0, "hello");
    assert_eq!(g.on_message(&id(2), &m), Receipt::NotSubscribed);
    assert!(g.subscribe(&chat()));
    assert_eq!(g.on_message(&id(2), &m), Receipt::Delivered { relay_to: Vec::new() });
}

#[test]
fn subscriptions_are_counted_once() {
    let me = identity(9);
    let mut g = gossip_of(&me, 8);
    assert!(!g.is_subscribed(&chat()));
    assert!(g.subscribe(&chat()));
    assert!(!g.subscribe(&chat()));
    assert!(g.is_subscribed(&chat()));
    assert!(g.unsubscribe(&chat()));
    assert!(!g.unsubscribe(&chat()));
    assert!(!g.is_subscribed(&chat()));
}

#[test]
fn the_node_is_no_peer_of_itself() {
    let me = identity(9);
    let mut g = gossip_of(&me, 8);
    assert!(!g.add_explicit_peer(&me.id()));
    assert!(!g.on_peer_subscribed(&me.id(), &chat()));
    assert_eq!(g.targets(&chat(), &id(1)), Vec::<PeerId>::new());
}

#[test]
fn peers_are_added_and_removed_once() {
    let me = identity(9);
    let mut g = gossip_of(&me, 8);
    assert!(g.add_explicit_peer(&id(2)));
    assert!(!g.add_explicit_peer(&id(2)));
    assert!(g.remove_explicit_peer(&id(2)));
    assert!(!g.remove_explicit_peer(&id(2)));
    assert!(g.on_peer_subscribed(&id(3), &chat()));
    assert!(!g.on_peer_subscribed(&id(3), &chat()));
    assert!(g.on_peer_unsubscribed(&id(3), &chat()));
    assert!(!g.on_peer_unsubscribed(&id(3), &chat()));
}

#[test]
fn targets_are_the_explicit_peers_and_the_subscribers_of_the_topic() {
    let me = identity(9);
    let mut g = gossip_of(&me, 8);
    let news = Topic::new("news");
    g.add_explicit_peer(&id(2));
    g.on_peer_subscribed(&id(3), &chat());
    g.on_peer_subscribed(&id(4), &news);
    g.on_peer_subscribed(&id(2), &chat());
    assert_eq!(g.targets(&chat(), &id(99)), vec![id(2), id(3)]);
    assert_eq!(g.targets(&news, &id(99)), vec![id(2), id(4)]);
    assert_eq!(g.targets(&Topic::new("none"), &id(99)), vec![id(2)]);
    assert_eq!(g.targets(&chat(), &id(2)), vec![id(3)]);
}

#[test]
fn a_peer_that_is_gone_has_no_subscription_left() {
    let me = identity(9);
    let mut g = gossip_of(&me, 8);
    let news = Topic::new("news");
    g.on_peer_subscribed(&id(3), &chat());
    g.on_peer_subscribed(&id(4), &chat());
    g.on_peer_subscribed(&id(3), &news);
    g.on_peer_gone(&id(3));
    assert_eq!(g.targets(&chat(), &id(99)), vec![id(4)]);
    assert_eq!(g.targets(&news, &id(99)), Vec::<PeerId>::new());
}

#[test]
fn peer_state_tells_explicit_mesh_and_fanout() {
    let me = identity(9);
    let mut g = gossip_of(&me, 8);
    let news = Topic::new("news");
    g.subscribe(&chat());
    g.add_explicit_peer(&id(2));
    g.on_peer_subscribed(&id(3), &chat());
    g.on_peer_subscribed(&id(3), &news);
    assert_eq!(g.peer_state(&chat(), &id(2)), Some(PeerState::Explicit));
    assert_eq!(g.peer_state(&news, &id(2)), Some(PeerState::Explicit));
    assert_eq!(g.peer_state(&chat(), &id(3)), Some(PeerState::Mesh));
    assert_eq!(g.peer_state(&news, &id(3)), Some(PeerState::Fanout));
    assert_eq!(g.peer_state(&chat(), &id(4)), None);
}

#[test]
fn publish_signs_counts_and_names_the_targets() {
    let me = identity(9);
    let mut g = gossip_of(&me, 8);
    g.add_explicit_peer(&id(2));
    g.on_peer_subscribed(&id(3), &chat());
    let first = g.publish(&me, chat(), b"one".to_vec());
    assert!(first.message.verify());
    assert_eq!(first.message.sequence, 0);
    assert_eq!(first.message.sender, me.id());
    assert_eq!(first.message.payload, b"one".to_vec());
    assert!(!first.deliver);
    assert_eq!(first.send_to, vec![id(2), id(3)]);
    assert_eq!(first.message, Message::create(&me, chat(), b"one".to_vec(), 0));
    g.subscribe(&chat());
    let second = g.publish(&me, chat(), b"two".to_vec());
    assert_eq!(second.message.sequence, 1);
    assert!(second.deliver);
    assert_ne!(first.message.id, second.message.id);
}

#[test]
fn a_published_message_that_comes_back_is_a_duplicate() {
    let me = identity(9);
    let mut g = gossip_of(&me, 8);
    g.subscribe(&chat());
    g.add_explicit_peer(&id(2));
    let p = g.publish(&me, chat(), b"one".to_vec());
    assert_eq!(g.on_message(&id(2), &p.message), Receipt::Duplicate);
}

#[test]
fn the_oldest_identifier_leaves_when_there_is_no_room() {
    let me = identity(9);
    let mut g = gossip_of(&me, 2);
    g.subscribe(&chat());
    let a = message(1, 0, "a");
    let b = message(1, 1, "b");
    let c = message(1, 2, "c");
    assert!(matches!(g.on_message(&id(2), &a), Receipt::Delivered { .. }));
    assert!(matches!(g.on_message(&id(2), &b), Receipt::Delivered { .. }));
    // within the window: one other message since
    assert_eq!(g.on_message(&id(2), &a), Receipt::Duplicate);
    assert!(matches!(g.on_message(&id(2), &c), Receipt::Delivered { .. }));
    // a has left the window of two, b and c are in it
    assert_eq!(g.on_message(&id(2), &b), Receipt::Duplicate);
    assert_eq!(g.on_message(&id(2), &c), Receipt::Duplicate);
    assert!(matches!(g.on_message(&id(2), &a), Receipt::Delivered { .. }));
}

#[test]
fn three_nodes_each_receive_hello_once() {
    // A, B and C know each other and are subscribed to chat; A publishes
    let ids = [identity(1), identity(2), identity(3)];
    let mut nodes: Vec<Gossip> = ids.iter().map(|i| gossip_of(i, 16)).collect();
    for n in 0..3 {
        nodes[n].subscribe(&chat());
        for other in 0..3 {
            nodes[n].add_explicit_peer(&ids[other].id());
        }
    }
    let mut delivered = [0usize; 3];
    let p = nodes[0].publish(&ids[0], chat(), b"hello".to_vec());
    assert!(p.deliver);
    delivered[0] += 1;
    assert_eq!(p.send_to, vec![ids[1].id(), ids[2].id()]);
    // (to, from, message) in flight
    let mut flight: Vec<(usize, usize, Message)> = Vec::new();
    for to in &p.send_to {
        let at = ids.iter().position(|i| i.id() == *to).unwrap();
        flight.push((at, 0, p.message.clone()));
    }
    let mut hops = 0;
    while let Some((to, from, m)) = flight.pop() {
        hops += 1;
        assert!(hops < 100);
        match nodes[to].on_message(&ids[from].id(), &m) {
            Receipt::Delivered { relay_to } => {
                assert_eq!(m.payload, b"hello".to_vec());
                delivered[to] += 1;
                assert!(!relay_to.contains(&ids[from].id()));
                for next in relay_to {
                    let at = ids.iter().position(|i| i.id() == next).unwrap();
                    flight.push((at, to, m.clone()));
                }
            }
            Receipt::Duplicate => {}
            other => panic!("unexpected {:?}", other),
        }
    }
    assert_eq!(delivered, [1, 1, 1]);
    // B and C relayed to each other, and both relays were dropped
    assert_eq!(hops, 4);
}

#[test]
fn a_message_found_invalid_is_dropped_whatever_it_holds() {
    let me = identity(9);
    let mut g = gossip_of(&me, 8);
    g.subscribe(&chat());
    g.add_explicit_peer(&id(2));
    let m = message(1, 0, "hello");
    assert_eq!(g.on_checked_message(&id(3), &m, false), Receipt::Invalid);
    assert_eq!(
        g.on_checked_message(&id(3), &m, true),
        Receipt::Delivered { relay_to: vec![id(2)] }
    );
    assert_eq!(g.on_checked_message(&id(3), &m, true), Receipt::Duplicate);
    assert_eq!(g.on_checked_message(&id(3), &m, false), Receipt::Invalid);
}

#[test]
fn a_message_is_what_it_claims_when_sender_identifier_and_signature_fit() {
    let m = message(1, 0, "hello");
    let holder = identity(1).id();
    assert!(m.check(&holder, &m.id, true));
    assert!(!m.check(&holder, &m.id, false));
    assert!(!m.check(&id(5), &m.id, true));
    let other = message(1, 1, "hello").id;
    assert!(!m.check(&holder, &other, true));
}
