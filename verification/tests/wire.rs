use overlay_node::crypto::NodeIdentity;
use overlay_node::discovery::{Address, Announcement};
use overlay_node::handshake::{Credentials, Handshake};
use overlay_node::id::PeerId;
use overlay_node::message::{Message, Topic};
use overlay_node::record::Record;
use overlay_node::wire::{decode, encode, Frame};

fn id(n: u8) -> PeerId {
    PeerId::new([n; 32])
}

fn record() -> Record {
    Record { key: b"key".to_vec(), value: b"value".to_vec(), publisher: id(7), expiry: 1234 }
}

fn message() -> Message {
    Message::create(&NodeIdentity::from_seed([3; 32]), Topic::new("chat"), b"hello".to_vec(), 5)
}

fn frames() -> Vec<Frame> {
    vec![
        Frame::Announce(Announcement {
            sender: id(1),
            addrs: vec![
                Address { ip: 0x0102_0304, port: 4001 },
                Address { ip: u128::MAX, port: u16::MAX },
            ],
            ttl: 15,
        }),
        Frame::Announce(Announcement { sender: id(1), addrs: Vec::new(), ttl: 0 }),
        Frame::Publish(message()),
        Frame::Subscribe(Topic::new("chat")),
        Frame::Subscribe(Topic::new("")),
        Frame::Unsubscribe(Topic::new("na\u{ef}ve \u{1f980}")),
        Frame::FindNode { query: 1, target: id(9) },
        Frame::GetValue { query: 2, key: b"file123".to_vec() },
        Frame::GetValue { query: u64::MAX, key: Vec::new() },
        Frame::PutValue { query: 3, record: record() },
        Frame::Peers { query: 4, closer: vec![id(1), id(2), id(3)] },
        Frame::Peers { query: 4, closer: Vec::new() },
        Frame::Value { query: 5, closer: vec![id(1)], found: Some(record()) },
        Frame::Value { query: 5, closer: Vec::new(), found: None },
        Frame::Stored { query: 6, stored: true },
        Frame::Stored { query: 6, stored: false },
        Frame::Ping { query: 7 },
        Frame::Pong { query: 7 },
        Frame::Challenge { nonce: [9; 32] },
        Frame::Credentials(Handshake::respond(&NodeIdentity::from_seed([3; 32]), &[9; 32])),
    ]
}

#[test]
fn every_frame_reads_back_as_it_was_written() {
    for frame in frames() {
        let bytes = encode(&frame);
        assert_eq!(decode(&bytes), Some(frame));
    }
}

#[test]
fn frames_of_different_kinds_are_written_differently() {
    let all: Vec<Vec<u8>> = frames().iter().map(encode).collect();
    for i in 0..all.len() {
        for j in 0..all.len() {
            if i != j {
                assert_ne!(all[i], all[j]);
            }
        }
    }
}

#[test]
fn find_node_is_a_tag_a_number_and_an_identifier() {
    let mut expected = vec![5u8];
    expected.extend_from_slice(&0x0102_0304_0506_0708u64.to_le_bytes());
    expected.extend_from_slice(&[9u8; 32]);
    assert_eq!(encode(&Frame::FindNode { query: 0x0102_0304_0506_0708, target: id(9) }), expected);
}

#[test]
fn a_record_is_written_field_by_field() {
    let mut expected = vec![7u8];
    expected.extend_from_slice(&3u64.to_le_bytes());
    expected.extend_from_slice(&3u64.to_le_bytes());
    expected.extend_from_slice(b"key");
    expected.extend_from_slice(&5u64.to_le_bytes());
    expected.extend_from_slice(b"value");
    expected.extend_from_slice(&[7u8; 32]);
    expected.extend_from_slice(&1234u64.to_le_bytes());
    assert_eq!(encode(&Frame::PutValue { query: 3, record: record() }), expected);
}

#[test]
fn an_announcement_is_written_field_by_field() {
    let frame = Frame::Announce(Announcement {
        sender: id(1),
        addrs: vec![Address { ip: 0x0a00_0001, port: 4001 }],
        ttl: 15,
    });
    let mut expected = vec![1u8];
    expected.extend_from_slice(&[1u8; 32]);
    expected.extend_from_slice(&1u64.to_le_bytes());
    expected.extend_from_slice(&0x0a00_0001u128.to_le_bytes());
    expected.extend_from_slice(&4001u16.to_le_bytes());
    expected.extend_from_slice(&15u64.to_le_bytes());
    assert_eq!(encode(&frame), expected);
}

#[test]
fn a_message_that_was_sent_still_verifies() {
    let bytes = encode(&Frame::Publish(message()));
    match decode(&bytes) {
        Some(Frame::Publish(m)) => {
            assert!(m.verify());
            assert_eq!(m, message());
        }
        other => panic!("unexpected {:?}", other),
    }
}

#[test]
fn what_is_cut_short_is_no_frame() {
    for frame in frames() {
        let bytes = encode(&frame);
        for len in 0..bytes.len() {
            assert_eq!(decode(&bytes[..len]), None);
        }
    }
}

#[test]
fn what_has_bytes_behind_it_is_no_frame() {
    for frame in frames() {
        let mut bytes = encode(&frame);
        bytes.push(0);
        assert_eq!(decode(&bytes), None);
    }
}

#[test]
fn an_unknown_tag_is_no_frame() {
    assert_eq!(decode(&[]), None);
    assert_eq!(decode(&[0]), None);
    assert_eq!(decode(&[15, 0, 0, 0, 0, 0, 0, 0, 0]), None);
    assert_eq!(decode(&[255]), None);
    assert_eq!(decode(&[11, 7, 0, 0, 0, 0, 0, 0, 0]), Some(Frame::Ping { query: 7 }));
}

#[test]
fn a_flag_other_than_zero_and_one_is_no_frame() {
    let mut bytes = encode(&Frame::Stored { query: 6, stored: true });
    let last = bytes.len() - 1;
    bytes[last] = 2;
    assert_eq!(decode(&bytes), None);
    let mut value = encode(&Frame::Value { query: 5, closer: Vec::new(), found: None });
    let last = value.len() - 1;
    value[last] = 7;
    assert_eq!(decode(&value), None);
}

#[test]
fn a_topic_that_is_not_utf8_is_no_frame() {
    let mut bytes = vec![3u8];
    bytes.extend_from_slice(&2u64.to_le_bytes());
    bytes.extend_from_slice(&[0xc3, 0x28]);
    assert_eq!(decode(&bytes), None);
    let mut good = vec![3u8];
    good.extend_from_slice(&2u64.to_le_bytes());
    good.extend_from_slice(&[0xc3, 0xa9]);
    assert_eq!(decode(&good), Some(Frame::Subscribe(Topic::new("\u{e9}"))));
}

#[test]
fn a_length_that_reaches_past_the_end_is_no_frame() {
    let mut bytes = vec![6u8];
    bytes.extend_from_slice(&1u64.to_le_bytes());
    bytes.extend_from_slice(&u64::MAX.to_le_bytes());
    bytes.extend_from_slice(b"abc");
    assert_eq!(decode(&bytes), None);
    let mut list = vec![8u8];
    list.extend_from_slice(&1u64.to_le_bytes());
    list.extend_from_slice(&u64::MAX.to_le_bytes());
    list.extend_from_slice(&[1u8; 32]);
    assert_eq!(decode(&list), None);
}

#[test]
fn credentials_are_a_tag_the_version_the_key_and_the_signature() {
    let c = Credentials { version: 0x0102_0304, public_key: [5; 32], signature: [6; 64] };
    let mut expected = vec![14u8];
    expected.extend_from_slice(&0x0102_0304u32.to_le_bytes());
    expected.extend_from_slice(&[5u8; 32]);
    expected.extend_from_slice(&[6u8; 64]);
    assert_eq!(encode(&Frame::Credentials(c)), expected);
    let mut challenge = vec![13u8];
    challenge.extend_from_slice(&[9u8; 32]);
    assert_eq!(encode(&Frame::Challenge { nonce: [9; 32] }), challenge);
}

#[test]
fn credentials_that_were_sent_end_the_handshake() {
    let peer = NodeIdentity::from_seed([3; 32]);
    let bytes = encode(&Frame::Credentials(Handshake::respond(&peer, &[9; 32])));
    match decode(&bytes) {
        Some(Frame::Credentials(c)) => {
            let waiting = Handshake { hint: None, challenge: [9; 32], deadline: 10 };
            assert_eq!(waiting.finish(&c, 5), Ok(peer.id()));
        }
        other => panic!("unexpected {:?}", other),
    }
}
