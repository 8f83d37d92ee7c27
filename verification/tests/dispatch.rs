use overlay_node::crypto::NodeIdentity;
use overlay_node::discovery::{Address, Announcement};
use overlay_node::dispatch::{inbound, open, outbound, protocol, seal, Inbound, Outbound};
use overlay_node::handshake::{Credentials, Protocol};
use overlay_node::event::{Action, Event, Timer};
use overlay_node::gossip::Gossip;
use overlay_node::id::PeerId;
use overlay_node::message::{Message, Topic};
use overlay_node::query::Outcome;
use overlay_node::record::Record;
use overlay_node::wire::Frame;

fn id(n: u8) -> PeerId {
    PeerId::new([n; 32])
}

fn record() -> Record {
    Record { key: b"k".to_vec(), value: b"v".to_vec(), publisher: id(7), expiry: 9 }
}

fn message() -> Message {
    Message::create(&NodeIdentity::from_seed([3; 32]), Topic::new("chat"), b"hello".to_vec(), 5)
}

fn announcement() -> Announcement {
    Announcement { sender: id(1), addrs: vec![Address { ip: 1, port: 2 }], ttl: 15 }
}

#[test]
fn frames_become_the_events_of_their_protocol() {
    let from = id(4);
    assert_eq!(
        inbound(from, Frame::Announce(announcement())),
        Inbound::Event(Event::Announcement(announcement()))
    );
    assert_eq!(
        inbound(from, Frame::Publish(message())),
        Inbound::Event(Event::Gossip { from, message: message() })
    );
    assert_eq!(
        inbound(from, Frame::Subscribe(Topic::new("chat"))),
        Inbound::Event(Event::PeerSubscribed { peer: from, topic: Topic::new("chat") })
    );
    assert_eq!(
        inbound(from, Frame::Unsubscribe(Topic::new("chat"))),
        Inbound::Event(Event::PeerUnsubscribed { peer: from, topic: Topic::new("chat") })
    );
    assert_eq!(
        inbound(from, Frame::FindNode { query: 3, target: id(9) }),
        Inbound::Event(Event::FindNode { from, request: 3, target: id(9) })
    );
    assert_eq!(
        inbound(from, Frame::GetValue { query: 3, key: b"k".to_vec() }),
        Inbound::Event(Event::GetValue { from, request: 3, key: b"k".to_vec() })
    );
    assert_eq!(
        inbound(from, Frame::PutValue { query: 3, record: record() }),
        Inbound::Event(Event::PutValue { from, request: 3, record: record() })
    );
    assert_eq!(
        inbound(from, Frame::Peers { query: 3, closer: vec![id(5)] }),
        Inbound::Event(Event::Response { query: 3, from, closer: vec![id(5)], found: None })
    );
    assert_eq!(
        inbound(from, Frame::Value { query: 3, closer: vec![id(5)], found: Some(record()) }),
        Inbound::Event(Event::Response {
            query: 3,
            from,
            closer: vec![id(5)],
            found: Some(record())
        })
    );
    assert_eq!(
        inbound(from, Frame::Stored { query: 3, stored: true }),
        Inbound::Event(Event::Stored { query: 3, from })
    );
}

#[test]
fn a_refusal_to_store_is_ignored() {
    assert_eq!(inbound(id(4), Frame::Stored { query: 3, stored: false }), Inbound::Ignored);
}

#[test]
fn a_ping_is_answered_and_a_pong_tells_of_life() {
    assert_eq!(inbound(id(4), Frame::Ping { query: 8 }), Inbound::Reply(Frame::Pong { query: 8 }));
    assert_eq!(inbound(id(4), Frame::Pong { query: 8 }), Inbound::Alive { query: 8 });
}

#[test]
fn actions_send_the_frames_of_their_protocol() {
    let to = vec![id(5), id(6)];
    let send = |frame| Some(Outbound { broadcast: false, to: to.clone(), frame });
    assert_eq!(
        outbound(&Action::Broadcast(announcement())),
        Some(Outbound { broadcast: true, to: Vec::new(), frame: Frame::Announce(announcement()) })
    );
    assert_eq!(
        outbound(&Action::Gossip { message: message(), deliver: true, peers: to.clone() }),
        send(Frame::Publish(message()))
    );
    assert_eq!(
        outbound(&Action::AskPeers { query: 2, peers: to.clone(), target: id(9) }),
        send(Frame::FindNode { query: 2, target: id(9) })
    );
    assert_eq!(
        outbound(&Action::AskValue { query: 2, peers: to.clone(), key: b"k".to_vec() }),
        send(Frame::GetValue { query: 2, key: b"k".to_vec() })
    );
    assert_eq!(
        outbound(&Action::AskStore { query: 2, peers: to.clone(), record: record() }),
        send(Frame::PutValue { query: 2, record: record() })
    );
}

#[test]
fn replies_go_to_the_asker_with_the_number_of_its_request() {
    let back = |frame| Some(Outbound { broadcast: false, to: vec![id(5)], frame });
    assert_eq!(
        outbound(&Action::ReplyPeers { to: id(5), request: 4, closer: vec![id(6)] }),
        back(Frame::Peers { query: 4, closer: vec![id(6)] })
    );
    assert_eq!(
        outbound(&Action::ReplyValue {
            to: id(5),
            request: 4,
            closer: vec![id(6)],
            found: Some(record())
        }),
        back(Frame::Value { query: 4, closer: vec![id(6)], found: Some(record()) })
    );
    assert_eq!(
        outbound(&Action::ReplyValue { to: id(5), request: 4, closer: Vec::new(), found: None }),
        back(Frame::Value { query: 4, closer: Vec::new(), found: None })
    );
    assert_eq!(
        outbound(&Action::ReplyStored { to: id(5), request: 4, stored: false }),
        back(Frame::Stored { query: 4, stored: false })
    );
}

#[test]
fn what_stays_with_the_node_sends_nothing() {
    assert_eq!(outbound(&Action::Schedule { timer: Timer::Sweep, at: 5 }), None);
    assert_eq!(outbound(&Action::Dial { peer: id(5) }), None);
    assert_eq!(outbound(&Action::Drop { peer: id(5) }), None);
    assert_eq!(outbound(&Action::PeerExpired(id(5))), None);
    assert_eq!(outbound(&Action::Ping { peer: id(5), candidate: id(6) }), None);
    assert_eq!(outbound(&Action::Finished { query: 1, outcome: Outcome::Stored(1) }), None);
}

#[test]
fn the_getters_of_gossip_tell_topics_and_peers() {
    let mut g = Gossip::new(id(1), 4).unwrap();
    assert_eq!(g.subscriptions(), Vec::<Topic>::new());
    g.subscribe(&Topic::new("a"));
    g.subscribe(&Topic::new("b"));
    g.add_explicit_peer(&id(2));
    assert_eq!(g.subscriptions(), vec![Topic::new("a"), Topic::new("b")]);
    assert_eq!(g.explicit_peers(), vec![id(2)]);
}

#[test]
fn a_notice_of_subscription_goes_to_its_peer() {
    let chat = || Topic::new("chat");
    assert_eq!(
        outbound(&Action::Tell { peer: id(5), topic: chat(), subscribed: true }),
        Some(Outbound { broadcast: false, to: vec![id(5)], frame: Frame::Subscribe(chat()) })
    );
    assert_eq!(
        outbound(&Action::Tell { peer: id(5), topic: chat(), subscribed: false }),
        Some(Outbound { broadcast: false, to: vec![id(5)], frame: Frame::Unsubscribe(chat()) })
    );
}

#[test]
fn the_frames_of_the_handshake_are_handed_on() {
    let c = Credentials { version: 1, public_key: [5; 32], signature: [6; 64] };
    assert_eq!(
        inbound(id(4), Frame::Challenge { nonce: [7; 32] }),
        Inbound::Challenge { nonce: [7; 32] }
    );
    assert_eq!(inbound(id(4), Frame::Credentials(c)), Inbound::Credentials(c));
}

fn samples() -> Vec<Frame> {
    vec![
        Frame::Announce(announcement()),
        Frame::Publish(message()),
        Frame::Subscribe(Topic::new("chat")),
        Frame::Unsubscribe(Topic::new("chat")),
        Frame::FindNode { query: 3, target: id(9) },
        Frame::GetValue { query: 3, key: b"k".to_vec() },
        Frame::PutValue { query: 3, record: record() },
        Frame::Peers { query: 3, closer: vec![id(5)] },
        Frame::Value { query: 3, closer: vec![id(5)], found: Some(record()) },
        Frame::Stored { query: 3, stored: true },
        Frame::Ping { query: 3 },
        Frame::Pong { query: 3 },
        Frame::Challenge { nonce: [7; 32] },
        Frame::Credentials(Credentials { version: 1, public_key: [5; 32], signature: [6; 64] }),
    ]
}

#[test]
fn every_frame_belongs_to_a_protocol() {
    let protocols: Vec<Protocol> = samples().iter().map(protocol).collect();
    let mut expected = vec![Protocol::Discovery];
    expected.extend([Protocol::Gossip; 3]);
    expected.extend([Protocol::Dht; 8]);
    expected.extend([Protocol::Handshake; 2]);
    assert_eq!(protocols, expected);
}

#[test]
fn every_frame_arrives_as_it_was_sent() {
    for frame in samples() {
        let bytes = seal(&frame);
        assert_eq!(open(&bytes), Some(frame));
    }
}

#[test]
fn a_sealed_frame_begins_with_the_identifier_of_its_protocol() {
    let mut expected = Vec::new();
    expected.extend_from_slice(&14u64.to_le_bytes());
    expected.extend_from_slice(b"/overlay/dht/1");
    expected.push(11);
    expected.extend_from_slice(&3u64.to_le_bytes());
    assert_eq!(seal(&Frame::Ping { query: 3 }), expected);
}

#[test]
fn a_frame_under_the_identifier_of_another_protocol_is_dropped() {
    let mut bytes = Vec::new();
    bytes.extend_from_slice(&17u64.to_le_bytes());
    bytes.extend_from_slice(b"/overlay/gossip/1");
    bytes.push(11);
    bytes.extend_from_slice(&3u64.to_le_bytes());
    assert_eq!(open(&bytes), None);
    let mut unknown = Vec::new();
    unknown.extend_from_slice(&14u64.to_le_bytes());
    unknown.extend_from_slice(b"/overlay/xyz/1");
    unknown.push(11);
    unknown.extend_from_slice(&3u64.to_le_bytes());
    assert_eq!(open(&unknown), None);
    assert_eq!(open(&[]), None);
    assert_eq!(open(&seal(&Frame::Ping { query: 3 })[..22]), None);
}
