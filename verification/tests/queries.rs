use overlay_node::id::PeerId;
use overlay_node::query::{Outcome, PendingQuery, QueryError, QueryKind, Stage, Step};
use overlay_node::record::Record;

fn id(n: u8) -> PeerId {
    let mut bytes = [0u8; 32];
    bytes[31] = n;
    PeerId::new(bytes)
}

fn record(value: &str, publisher: u8, expiry: u64) -> Record {
    Record {
        key: b"key".to_vec(),
        value: value.as_bytes().to_vec(),
        publisher: id(publisher),
        expiry,
    }
}

// target is zero: the peer with the smaller number is the closer one
fn start(kind: QueryKind, seeds: &[u8], quorum: usize) -> PendingQuery {
    let seeds: Vec<PeerId> = seeds.iter().map(|n| id(*n)).collect();
    PendingQuery::start(id(200), kind, b"key".to_vec(), id(0), &seeds, quorum, 1000, 4, 3, 2)
        .unwrap()
}

#[test]
fn an_operation_wants_a_quorum_a_width_and_a_fanout() {
    let seeds = vec![id(1)];
    let make = |quorum, width, fanout| {
        PendingQuery::start(
            id(200),
            QueryKind::FindNode,
            Vec::new(),
            id(0),
            &seeds,
            quorum,
            1000,
            4,
            width,
            fanout,
        )
    };
    assert!(make(1, 1, 1).is_some());
    assert!(make(0, 1, 1).is_none());
    assert!(make(1, 0, 1).is_none());
    assert!(make(1, 1, 0).is_none());
}

#[test]
fn an_operation_tells_what_it_was_started_with() {
    let q = start(QueryKind::GetValue, &[1], 1);
    assert_eq!(q.kind(), QueryKind::GetValue);
    assert_eq!(q.stage(), Stage::Lookup);
    assert_eq!(q.key(), &b"key".to_vec());
    assert_eq!(q.target(), id(0));
    assert_eq!(q.deadline(), 1000);
}

#[test]
fn the_closest_seeds_are_asked_first_a_fanout_at_a_time() {
    let mut q = start(QueryKind::FindNode, &[9, 3, 7, 5, 200], 1);
    // width 3 keeps 3, 5, 7; the node itself, 200, is no candidate
    assert_eq!(q.advance(0), Step::Ask(vec![id(3), id(5)]));
    assert_eq!(q.advance(0), Step::Ask(vec![id(7)]));
    assert_eq!(q.advance(0), Step::Wait);
}

#[test]
fn answers_bring_closer_peers_that_are_asked_next() {
    let mut q = start(QueryKind::FindNode, &[9, 7], 1);
    assert_eq!(q.advance(0), Step::Ask(vec![id(7), id(9)]));
    assert!(q.on_response(&id(7), &vec![id(2), id(8), id(200)], None));
    // closest three of 7, 9, 2, 8: 2, 7, 8
    assert_eq!(q.advance(1), Step::Ask(vec![id(2), id(8)]));
    assert!(q.on_response(&id(9), &vec![], None));
    assert!(q.on_response(&id(2), &vec![id(7)], None));
    assert_eq!(q.advance(2), Step::Wait);
    assert!(q.on_response(&id(8), &vec![], None));
    assert_eq!(q.advance(3), Step::Done(Outcome::Peers(vec![id(2), id(7), id(8)])));
    assert_eq!(q.stage(), Stage::Done);
    assert_eq!(q.advance(4), Step::Closed);
}

#[test]
fn an_answer_that_is_not_awaited_changes_nothing() {
    let mut q = start(QueryKind::FindNode, &[7], 1);
    assert!(!q.awaits(&id(7)));
    assert!(!q.on_response(&id(7), &vec![id(1)], None));
    assert_eq!(q.advance(0), Step::Ask(vec![id(7)]));
    assert!(q.awaits(&id(7)));
    assert!(!q.on_response(&id(5), &vec![id(1)], None));
    assert!(q.on_response(&id(7), &vec![], None));
    assert!(!q.awaits(&id(7)));
    assert!(!q.on_response(&id(7), &vec![id(1)], None));
    assert_eq!(q.advance(1), Step::Done(Outcome::Peers(vec![id(7)])));
}

#[test]
fn the_hop_limit_ends_the_asking() {
    // hop limit 4, fanout 2: each answer names one closer peer
    let mut q = start(QueryKind::FindNode, &[50], 1);
    let mut asked = Vec::new();
    let mut now = 0;
    loop {
        match q.advance(now) {
            Step::Ask(batch) => {
                for p in batch {
                    asked.push(p);
                    let closer = id(p.bytes[31] - 1);
                    assert!(q.on_response(&p, &vec![closer], None));
                }
            }
            Step::Done(Outcome::Peers(peers)) => {
                assert_eq!(peers, vec![id(46), id(47), id(48)]);
                break;
            }
            other => panic!("unexpected {:?}", other),
        }
        now += 1;
    }
    assert_eq!(asked, vec![id(50), id(49), id(48), id(47)]);
}

#[test]
fn an_unreachable_peer_leaves_the_candidates() {
    let mut q = start(QueryKind::FindNode, &[3, 5], 1);
    assert_eq!(q.advance(0), Step::Ask(vec![id(3), id(5)]));
    assert!(q.on_unreachable(&id(3)));
    assert!(!q.on_unreachable(&id(3)));
    assert!(!q.on_unreachable(&id(9)));
    assert!(q.on_response(&id(5), &vec![], None));
    assert_eq!(q.advance(1), Step::Done(Outcome::Peers(vec![id(5)])));
}

#[test]
fn find_node_fails_with_timeout_at_its_deadline() {
    let mut q = start(QueryKind::FindNode, &[3], 1);
    assert_eq!(q.advance(999), Step::Ask(vec![id(3)]));
    assert_eq!(q.advance(1000), Step::Done(Outcome::Failed(QueryError::Timeout)));
    assert_eq!(q.advance(1001), Step::Closed);
}

#[test]
fn a_put_succeeds_with_a_quorum_of_acknowledgments() {
    let mut q = start(QueryKind::PutValue, &[3, 5, 7], 2);
    assert_eq!(q.advance(0), Step::Ask(vec![id(3), id(5)]));
    assert!(!q.on_stored(&id(3)));
    q.on_response(&id(3), &vec![], None);
    q.on_response(&id(5), &vec![], None);
    assert_eq!(q.advance(1), Step::Ask(vec![id(7)]));
    q.on_response(&id(7), &vec![], None);
    assert_eq!(q.advance(2), Step::Store(vec![id(3), id(5), id(7)]));
    assert_eq!(q.stage(), Stage::Store);
    assert_eq!(q.advance(3), Step::Wait);
    assert!(q.on_stored(&id(5)));
    assert!(!q.on_stored(&id(5)));
    assert!(!q.on_stored(&id(99)));
    assert_eq!(q.advance(4), Step::Wait);
    assert!(q.on_stored(&id(3)));
    assert_eq!(q.advance(5), Step::Done(Outcome::Stored(2)));
    assert_eq!(q.advance(6), Step::Closed);
}

#[test]
fn a_put_fails_when_acknowledgments_fall_short_at_the_deadline() {
    let mut q = start(QueryKind::PutValue, &[3, 5], 2);
    assert_eq!(q.advance(0), Step::Ask(vec![id(3), id(5)]));
    q.on_response(&id(3), &vec![], None);
    q.on_response(&id(5), &vec![], None);
    assert_eq!(q.advance(1), Step::Store(vec![id(3), id(5)]));
    assert!(q.on_stored(&id(3)));
    assert_eq!(q.advance(999), Step::Wait);
    assert_eq!(q.advance(1000), Step::Done(Outcome::Failed(QueryError::QuorumNotMet)));
}

#[test]
fn a_put_fails_when_fewer_peers_are_found_than_the_quorum() {
    let mut q = start(QueryKind::PutValue, &[3], 2);
    assert_eq!(q.advance(0), Step::Ask(vec![id(3)]));
    q.on_response(&id(3), &vec![], None);
    assert_eq!(q.advance(1), Step::Done(Outcome::Failed(QueryError::QuorumNotMet)));
    let mut none = start(QueryKind::PutValue, &[], 1);
    assert_eq!(none.advance(0), Step::Done(Outcome::Failed(QueryError::QuorumNotMet)));
}

#[test]
fn a_get_ends_with_the_first_value_for_a_quorum_of_one() {
    let mut q = start(QueryKind::GetValue, &[3, 5], 1);
    assert_eq!(q.advance(0), Step::Ask(vec![id(3), id(5)]));
    assert!(q.on_response(&id(5), &vec![id(1)], Some(record("v", 7, 500))));
    assert_eq!(q.advance(1), Step::Done(Outcome::Found(record("v", 7, 500))));
}

#[test]
fn a_get_chooses_among_differing_values() {
    let mut q = start(QueryKind::GetValue, &[3, 5, 7], 3);
    assert_eq!(q.advance(0), Step::Ask(vec![id(3), id(5)]));
    q.on_response(&id(3), &vec![], Some(record("short", 1, 400)));
    q.on_response(&id(5), &vec![], Some(record("long", 9, 500)));
    assert_eq!(q.advance(1), Step::Ask(vec![id(7)]));
    q.on_response(&id(7), &vec![], Some(record("tie", 4, 500)));
    assert_eq!(q.advance(2), Step::Done(Outcome::Found(record("tie", 4, 500))));
}

#[test]
fn a_get_passes_over_records_for_other_keys_and_expired_ones() {
    let mut q = start(QueryKind::GetValue, &[3, 5], 1);
    assert_eq!(q.advance(10), Step::Ask(vec![id(3), id(5)]));
    let mut other = record("x", 1, 500);
    other.key = b"other".to_vec();
    q.on_response(&id(3), &vec![], Some(other));
    q.on_response(&id(5), &vec![], Some(record("old", 1, 10)));
    assert_eq!(q.advance(11), Step::Done(Outcome::Failed(QueryError::NotFound)));
}

#[test]
fn a_get_fails_with_not_found_when_no_peer_has_the_value() {
    let mut q = start(QueryKind::GetValue, &[3], 1);
    assert_eq!(q.advance(0), Step::Ask(vec![id(3)]));
    q.on_response(&id(3), &vec![], None);
    assert_eq!(q.advance(1), Step::Done(Outcome::Failed(QueryError::NotFound)));
    let mut late = start(QueryKind::GetValue, &[3], 1);
    assert_eq!(late.advance(0), Step::Ask(vec![id(3)]));
    assert_eq!(late.advance(1000), Step::Done(Outcome::Failed(QueryError::NotFound)));
}

#[test]
fn a_get_returns_what_it_has_at_the_deadline() {
    let mut q = start(QueryKind::GetValue, &[3, 5], 2);
    assert_eq!(q.advance(0), Step::Ask(vec![id(3), id(5)]));
    q.on_response(&id(3), &vec![], Some(record("v", 1, 5000)));
    assert_eq!(q.advance(1), Step::Wait);
    assert_eq!(q.advance(1000), Step::Done(Outcome::Found(record("v", 1, 5000))));
}
