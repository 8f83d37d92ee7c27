use overlay_node::id::PeerId;
use overlay_node::routing::{InsertOutcome, RoutingTable};

fn id(first: u8, last: u8) -> PeerId {
    let mut bytes = [0u8; 32];
    bytes[0] = first;
    bytes[31] = last;
    PeerId::new(bytes)
}

fn table(capacity: usize) -> RoutingTable {
    RoutingTable::new(id(0, 0), capacity).unwrap()
}

#[test]
fn a_table_wants_room_in_its_buckets() {
    assert!(RoutingTable::new(id(0, 0), 0).is_none());
    assert!(RoutingTable::new(id(0, 0), 1).is_some());
}

#[test]
fn a_new_table_is_empty() {
    let t = table(2);
    assert_eq!(t.peers(), Vec::<PeerId>::new());
    assert!(!t.contains(&id(1, 0)));
    assert!(!t.contains(&id(0, 0)));
}

#[test]
fn the_node_itself_is_not_inserted() {
    let mut t = table(2);
    assert_eq!(t.insert(id(0, 0)), InsertOutcome::Local);
    assert_eq!(t.peers(), Vec::<PeerId>::new());
    assert!(!t.contains(&id(0, 0)));
}

#[test]
fn a_peer_is_added_while_its_bucket_has_room() {
    let mut t = table(2);
    assert_eq!(t.insert(id(0x80, 1)), InsertOutcome::Added);
    assert_eq!(t.insert(id(0x80, 2)), InsertOutcome::Added);
    assert!(t.contains(&id(0x80, 1)));
    assert!(t.contains(&id(0x80, 2)));
    assert_eq!(t.peers(), vec![id(0x80, 1), id(0x80, 2)]);
}

#[test]
fn a_known_peer_becomes_the_most_recently_contacted() {
    let mut t = table(3);
    t.insert(id(0x80, 1));
    t.insert(id(0x80, 2));
    t.insert(id(0x80, 3));
    assert_eq!(t.insert(id(0x80, 1)), InsertOutcome::Refreshed);
    assert_eq!(t.peers(), vec![id(0x80, 2), id(0x80, 3), id(0x80, 1)]);
    assert_eq!(t.insert(id(0x80, 1)), InsertOutcome::Refreshed);
    assert_eq!(t.peers(), vec![id(0x80, 2), id(0x80, 3), id(0x80, 1)]);
}

#[test]
fn no_peer_is_held_twice() {
    let mut t = table(4);
    for _ in 0..3 {
        t.insert(id(0x80, 1));
        t.insert(id(0x40, 1));
        t.insert(id(0x80, 2));
    }
    let mut peers = t.peers();
    assert_eq!(peers.len(), 3);
    peers.sort();
    peers.dedup();
    assert_eq!(peers.len(), 3);
}

#[test]
fn peers_stand_in_the_bucket_of_their_shared_prefix() {
    let mut t = table(4);
    // prefix lengths 7, 0, 1, 255
    t.insert(id(0x01, 0));
    t.insert(id(0x80, 0));
    t.insert(id(0x40, 0));
    t.insert(id(0, 1));
    assert_eq!(t.peers(), vec![id(0x80, 0), id(0x40, 0), id(0x01, 0), id(0, 1)]);
    let local = id(0, 0);
    let lengths: Vec<usize> = t.peers().iter().map(|p| local.prefix_len(p)).collect();
    assert_eq!(lengths, vec![0, 1, 7, 255]);
}

#[test]
fn a_full_bucket_discards_a_peer_that_is_no_closer() {
    let mut t = table(2);
    t.insert(id(0x80, 1));
    t.insert(id(0x80, 2));
    // 0x80..05 is farther from zero than the oldest, 0x80..01
    assert_eq!(t.insert(id(0x80, 5)), InsertOutcome::Discarded);
    assert!(!t.contains(&id(0x80, 5)));
    assert_eq!(t.peers(), vec![id(0x80, 1), id(0x80, 2)]);
    // another bucket still has room
    assert_eq!(t.insert(id(0x40, 5)), InsertOutcome::Added);
}

#[test]
fn a_full_bucket_asks_for_a_liveness_check_for_a_closer_peer() {
    let mut t = table(2);
    t.insert(id(0x80, 9));
    t.insert(id(0x80, 2));
    assert_eq!(t.insert(id(0x80, 5)), InsertOutcome::Full { oldest: id(0x80, 9) });
    // nothing changes until the check is settled
    assert_eq!(t.peers(), vec![id(0x80, 9), id(0x80, 2)]);
    assert!(!t.contains(&id(0x80, 5)));
}

#[test]
fn a_dead_oldest_peer_is_evicted_for_the_new_one() {
    let mut t = table(2);
    t.insert(id(0x80, 9));
    t.insert(id(0x80, 2));
    assert_eq!(t.insert(id(0x80, 5)), InsertOutcome::Full { oldest: id(0x80, 9) });
    assert_eq!(t.settle(id(0x80, 5), id(0x80, 9), false), InsertOutcome::Added);
    assert_eq!(t.peers(), vec![id(0x80, 2), id(0x80, 5)]);
    assert!(!t.contains(&id(0x80, 9)));
}

#[test]
fn a_live_oldest_peer_stays_and_the_new_one_is_discarded() {
    let mut t = table(2);
    t.insert(id(0x80, 9));
    t.insert(id(0x80, 2));
    assert_eq!(t.insert(id(0x80, 5)), InsertOutcome::Full { oldest: id(0x80, 9) });
    assert_eq!(t.settle(id(0x80, 5), id(0x80, 9), true), InsertOutcome::Discarded);
    // the oldest was contacted: it is the most recent now
    assert_eq!(t.peers(), vec![id(0x80, 2), id(0x80, 9)]);
    assert!(!t.contains(&id(0x80, 5)));
}

#[test]
fn touch_and_remove_tell_whether_the_peer_was_known() {
    let mut t = table(3);
    t.insert(id(0x80, 1));
    t.insert(id(0x80, 2));
    assert!(t.touch(&id(0x80, 1)));
    assert_eq!(t.peers(), vec![id(0x80, 2), id(0x80, 1)]);
    assert!(!t.touch(&id(0x80, 7)));
    assert!(!t.touch(&id(0, 0)));
    assert!(t.remove(&id(0x80, 2)));
    assert!(!t.remove(&id(0x80, 2)));
    assert!(!t.remove(&id(0, 0)));
    assert_eq!(t.peers(), vec![id(0x80, 1)]);
}

#[test]
fn closest_gives_the_nearest_peers_first() {
    let mut t = table(4);
    for p in [id(0x80, 0), id(0x40, 0), id(0x20, 0), id(0x10, 0), id(0xc0, 0)] {
        t.insert(p);
    }
    let target = id(0x41, 0);
    // distances: 40 -> 01, 20 -> 61, 10 -> 51, 80 -> c1, c0 -> 81
    assert_eq!(t.closest(&target, 3), vec![id(0x40, 0), id(0x10, 0), id(0x20, 0)]);
    assert_eq!(
        t.closest(&target, 9),
        vec![id(0x40, 0), id(0x10, 0), id(0x20, 0), id(0xc0, 0), id(0x80, 0)]
    );
    assert_eq!(t.closest(&target, 0), Vec::<PeerId>::new());
}
