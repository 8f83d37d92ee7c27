use overlay_node::closest::k_closest;
use overlay_node::id::{byte_lz, find_peer, PeerId};

fn id(first: u8, last: u8) -> PeerId {
    let mut bytes = [0u8; 32];
    bytes[0] = first;
    bytes[31] = last;
    PeerId::new(bytes)
}

#[test]
fn an_identifier_shares_all_bits_with_itself_only() {
    let a = id(0x5a, 7);
    assert_eq!(a.prefix_len(&a), 256);
    assert!(a.same(&a));
    assert_eq!(a.prefix_len(&id(0x5a, 6)), 255);
    assert!(!a.same(&id(0x5a, 6)));
}

#[test]
fn shared_prefix_counts_the_leading_bits_that_agree() {
    let zero = id(0, 0);
    assert_eq!(zero.prefix_len(&id(0x80, 0)), 0);
    assert_eq!(zero.prefix_len(&id(0x40, 0)), 1);
    assert_eq!(zero.prefix_len(&id(0x01, 0)), 7);
    assert_eq!(zero.prefix_len(&id(0, 0x80)), 248);
    assert_eq!(zero.prefix_len(&id(0, 0x01)), 255);
    assert_eq!(id(0xff, 0).prefix_len(&id(0xf0, 0)), 4);
}

#[test]
fn leading_zeros_of_a_byte() {
    assert_eq!(byte_lz(0), 8);
    assert_eq!(byte_lz(1), 7);
    assert_eq!(byte_lz(2), 6);
    assert_eq!(byte_lz(3), 6);
    assert_eq!(byte_lz(0x10), 3);
    assert_eq!(byte_lz(0x7f), 1);
    assert_eq!(byte_lz(0x80), 0);
    assert_eq!(byte_lz(0xff), 0);
    for x in 0..=255u8 {
        assert_eq!(byte_lz(x), x.leading_zeros() as usize);
    }
}

#[test]
fn closer_compares_xor_distances() {
    let target = id(0b1010_0000, 0);
    let near = id(0b1010_0001, 0);
    let far = id(0b0010_0000, 0);
    // distances: near 0x01.., far 0x80..
    assert!(target.closer(&near, &far));
    assert!(!target.closer(&far, &near));
    assert!(!target.closer(&near, &near));
    assert!(target.closer(&target, &near));
    // the last byte decides when the others agree
    assert!(id(0, 0).closer(&id(0, 1), &id(0, 2)));
    assert!(!id(0, 3).closer(&id(0, 1), &id(0, 2)));
}

#[test]
fn the_distance_is_symmetric_in_what_it_orders() {
    let a = id(0x12, 0x34);
    let b = id(0x56, 0x78);
    let c = id(0x9a, 0xbc);
    // d(a,b) < d(a,c) exactly when d(b,a) < d(c,a): compare through a third point
    assert_eq!(a.closer(&b, &c), {
        let mut ab = [0u8; 32];
        let mut ac = [0u8; 32];
        for i in 0..32 {
            ab[i] = a.bytes[i] ^ b.bytes[i];
            ac[i] = a.bytes[i] ^ c.bytes[i];
        }
        ab < ac
    });
}

#[test]
fn precedes_orders_identifiers_as_numbers() {
    assert!(id(0, 1).precedes(&id(0, 2)));
    assert!(id(0, 255).precedes(&id(1, 0)));
    assert!(!id(1, 0).precedes(&id(0, 255)));
    assert!(!id(7, 7).precedes(&id(7, 7)));
}

#[test]
fn find_peer_gives_the_position() {
    let list = vec![id(1, 0), id(2, 0), id(3, 0)];
    assert_eq!(find_peer(&list, &id(2, 0)), Some(1));
    assert_eq!(find_peer(&list, &id(3, 0)), Some(2));
    assert_eq!(find_peer(&list, &id(4, 0)), None);
    assert_eq!(find_peer(&Vec::new(), &id(4, 0)), None);
}

#[test]
fn k_closest_gives_the_nearest_in_order() {
    let target = id(0, 0);
    let list = vec![id(0x40, 0), id(0, 3), id(0x80, 0), id(0, 1), id(0, 2)];
    assert_eq!(k_closest(&list, &target, 3), vec![id(0, 1), id(0, 2), id(0, 3)]);
    assert_eq!(
        k_closest(&list, &target, 10),
        vec![id(0, 1), id(0, 2), id(0, 3), id(0x40, 0), id(0x80, 0)]
    );
    assert_eq!(k_closest(&list, &target, 0), Vec::<PeerId>::new());
    assert_eq!(k_closest(&Vec::new(), &target, 3), Vec::<PeerId>::new());
}

#[test]
fn k_closest_names_no_peer_twice() {
    let target = id(0xff, 0);
    let list = vec![id(1, 0), id(2, 0), id(1, 0), id(2, 0), id(1, 0)];
    // distances from ff: 01 -> fe, 02 -> fd
    assert_eq!(k_closest(&list, &target, 5), vec![id(2, 0), id(1, 0)]);
}

#[test]
fn k_closest_depends_on_the_target() {
    let list = vec![id(0x10, 0), id(0x20, 0), id(0x30, 0)];
    assert_eq!(k_closest(&list, &id(0x30, 0), 1), vec![id(0x30, 0)]);
    assert_eq!(k_closest(&list, &id(0x21, 0), 2), vec![id(0x20, 0), id(0x30, 0)]);
}
