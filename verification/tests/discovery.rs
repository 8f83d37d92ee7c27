use overlay_node::discovery::{Address, Announcement, Discovery, DiscoveryEvent};
use overlay_node::id::PeerId;

fn id(n: u8) -> PeerId {
    let mut bytes = [0u8; 32];
    bytes[0] = n;
    PeerId::new(bytes)
}

fn addr(port: u16) -> Address {
    Address { ip: 0x7f00_0001, port }
}

fn announcement(sender: u8, ttl: u64) -> Announcement {
    Announcement { sender: id(sender), addrs: vec![addr(4000 + sender as u16)], ttl }
}

fn discovery() -> Discovery {
    Discovery::new(id(0), 5, 3).unwrap()
}

#[test]
fn new_wants_an_interval_and_a_tolerance_of_two_at_least() {
    assert!(Discovery::new(id(0), 5, 3).is_some());
    assert!(Discovery::new(id(0), 5, 2).is_some());
    assert!(Discovery::new(id(0), 0, 3).is_none());
    assert!(Discovery::new(id(0), 5, 1).is_none());
    assert!(Discovery::new(id(0), 5, 0).is_none());
    assert!(Discovery::new(id(0), u64::MAX, 2).is_none());
    assert!(Discovery::new(id(0), u64::MAX / 2, 2).is_some());
}

#[test]
fn the_own_announcement_carries_the_time_to_live() {
    let d = discovery();
    let ann = d.announcement(vec![addr(1)]);
    assert_eq!(ann, Announcement { sender: id(0), addrs: vec![addr(1)], ttl: 15 });
}

#[test]
fn a_peer_that_announces_is_held_at_once() {
    let mut d = discovery();
    assert!(!d.contains(&id(1)));
    assert_eq!(d.on_announcement(announcement(1, 15), 100), DiscoveryEvent::Discovered(id(1)));
    assert!(d.contains(&id(1)));
    assert_eq!(d.len(), 1);
    let record = d.record(0);
    assert_eq!(record.id, id(1));
    assert_eq!(record.addrs, vec![addr(4001)]);
    assert_eq!(record.last_seen, 100);
    assert_eq!(record.expiry, 115);
}

#[test]
fn a_peer_is_kept_until_its_time_to_live_has_run_out() {
    let mut d = discovery();
    d.on_announcement(announcement(1, 15), 100);
    assert_eq!(d.sweep(100), Vec::<PeerId>::new());
    assert_eq!(d.sweep(114), Vec::<PeerId>::new());
    assert!(d.contains(&id(1)));
    assert_eq!(d.sweep(115), vec![id(1)]);
    assert!(!d.contains(&id(1)));
    assert_eq!(d.len(), 0);
    assert_eq!(d.sweep(116), Vec::<PeerId>::new());
}

#[test]
fn a_further_announcement_moves_the_deadline() {
    let mut d = discovery();
    d.on_announcement(announcement(1, 15), 100);
    assert_eq!(d.on_announcement(announcement(1, 15), 110), DiscoveryEvent::Refreshed(id(1)));
    assert_eq!(d.len(), 1);
    assert_eq!(d.record(0).last_seen, 110);
    assert_eq!(d.record(0).expiry, 125);
    assert_eq!(d.sweep(115), Vec::<PeerId>::new());
    assert_eq!(d.sweep(124), Vec::<PeerId>::new());
    assert_eq!(d.sweep(125), vec![id(1)]);
}

#[test]
fn one_missed_announcement_does_not_expire_a_peer() {
    // interval 5, time to live 15: the announcements at 105 and 110 are lost
    let mut d = discovery();
    d.on_announcement(announcement(1, 15), 100);
    assert_eq!(d.sweep(105), Vec::<PeerId>::new());
    assert_eq!(d.sweep(110), Vec::<PeerId>::new());
    assert!(d.contains(&id(1)));
}

#[test]
fn a_refresh_takes_the_addresses_announced() {
    let mut d = discovery();
    d.on_announcement(announcement(1, 15), 100);
    let again = Announcement { sender: id(1), addrs: vec![addr(1), addr(2)], ttl: 20 };
    d.on_announcement(again, 101);
    assert_eq!(d.record(0).addrs, vec![addr(1), addr(2)]);
    assert_eq!(d.record(0).expiry, 121);
}

#[test]
fn the_own_announcement_is_ignored() {
    let mut d = discovery();
    assert_eq!(d.on_announcement(announcement(0, 15), 100), DiscoveryEvent::Ignored);
    assert_eq!(d.len(), 0);
}

#[test]
fn an_announcement_without_address_is_ignored() {
    let mut d = discovery();
    let ann = Announcement { sender: id(1), addrs: Vec::new(), ttl: 15 };
    assert_eq!(d.on_announcement(ann, 100), DiscoveryEvent::Ignored);
    assert!(!d.contains(&id(1)));
}

#[test]
fn a_time_to_live_past_the_end_of_time_is_ignored() {
    let mut d = discovery();
    assert_eq!(d.on_announcement(announcement(1, u64::MAX), 1), DiscoveryEvent::Ignored);
    assert_eq!(
        d.on_announcement(announcement(1, u64::MAX - 1), 1),
        DiscoveryEvent::Discovered(id(1))
    );
    assert_eq!(d.record(0).expiry, u64::MAX);
}

#[test]
fn a_time_to_live_of_zero_expires_at_the_next_sweep() {
    let mut d = discovery();
    assert_eq!(d.on_announcement(announcement(1, 0), 100), DiscoveryEvent::Discovered(id(1)));
    assert_eq!(d.sweep(100), vec![id(1)]);
}

#[test]
fn a_sweep_removes_all_that_expired_and_keeps_the_order() {
    let mut d = discovery();
    d.on_announcement(announcement(1, 10), 100);
    d.on_announcement(announcement(2, 30), 100);
    d.on_announcement(announcement(3, 10), 101);
    d.on_announcement(announcement(4, 30), 101);
    assert_eq!(d.sweep(111), vec![id(1), id(3)]);
    assert_eq!(d.len(), 2);
    assert_eq!(d.record(0).id, id(2));
    assert_eq!(d.record(1).id, id(4));
    assert!(!d.contains(&id(1)));
    assert!(d.contains(&id(2)));
}

#[test]
fn broadcasts_are_due_one_interval_apart() {
    let mut d = discovery();
    assert_eq!(d.next_time(), 0);
    assert!(d.poll_broadcast(100));
    assert_eq!(d.next_time(), 105);
    assert!(!d.poll_broadcast(104));
    assert_eq!(d.next_time(), 105);
    assert!(d.poll_broadcast(105));
    assert_eq!(d.next_time(), 110);
}
