use lan_discovery::addr::{select_local_ipv4, Ipv4};
use lan_discovery::config::multicast_group;

fn ip(a: u8, b: u8, c: u8, d: u8) -> Ipv4 {
    Ipv4::new(a, b, c, d)
}

#[test]
fn no_candidates_falls_back_to_loopback() {
    assert_eq!(select_local_ipv4(&vec![]), ip(127, 0, 0, 1));
}

#[test]
fn only_unusable_candidates_fall_back_to_loopback() {
    let c = vec![ip(127, 0, 0, 1), ip(169, 254, 3, 4), ip(224, 0, 0, 251), ip(0, 0, 0, 0), ip(239, 1, 2, 3)];
    assert_eq!(select_local_ipv4(&c), ip(127, 0, 0, 1));
}

#[test]
fn usable_address_is_chosen_over_unusable_ones() {
    let c = vec![ip(127, 0, 0, 1), ip(169, 254, 1, 1), ip(8, 8, 8, 8)];
    assert_eq!(select_local_ipv4(&c), ip(8, 8, 8, 8));
}

#[test]
fn class_c_private_range_wins_in_any_order() {
    let a = ip(10, 0, 0, 5);
    let b = ip(172, 20, 1, 1);
    let c = ip(192, 168, 1, 20);
    let p = ip(93, 184, 216, 34);
    let orders = vec![
        vec![a, b, c, p],
        vec![c, b, a, p],
        vec![p, a, c, b],
        vec![b, p, a, c],
    ];
    for o in orders {
        assert_eq!(select_local_ipv4(&o), c);
    }
}

#[test]
fn class_b_private_range_beats_class_a() {
    assert_eq!(select_local_ipv4(&vec![ip(10, 1, 1, 1), ip(172, 16, 0, 9)]), ip(172, 16, 0, 9));
    assert_eq!(select_local_ipv4(&vec![ip(172, 31, 0, 9), ip(10, 1, 1, 1)]), ip(172, 31, 0, 9));
}

#[test]
fn outside_class_b_private_block_counts_as_public() {
    assert_eq!(select_local_ipv4(&vec![ip(172, 32, 0, 1), ip(10, 0, 0, 1)]), ip(10, 0, 0, 1));
    assert_eq!(ip(172, 15, 0, 1).score(), 10);
}

#[test]
fn private_beats_public() {
    assert_eq!(select_local_ipv4(&vec![ip(8, 8, 4, 4), ip(10, 9, 8, 7)]), ip(10, 9, 8, 7));
}

#[test]
fn ties_go_to_the_first_seen() {
    let c = vec![ip(192, 168, 0, 7), ip(192, 168, 0, 3)];
    assert_eq!(select_local_ipv4(&c), ip(192, 168, 0, 7));
    let c = vec![ip(1, 2, 3, 4), ip(5, 6, 7, 8)];
    assert_eq!(select_local_ipv4(&c), ip(1, 2, 3, 4));
}

#[test]
fn scores_of_each_kind() {
    assert_eq!(ip(127, 0, 0, 1).score(), -1);
    assert_eq!(ip(169, 254, 0, 1).score(), -1);
    assert_eq!(ip(224, 0, 0, 1).score(), -1);
    assert_eq!(ip(0, 0, 0, 0).score(), -1);
    assert_eq!(ip(192, 168, 5, 5).score(), 100);
    assert_eq!(ip(172, 16, 5, 5).score(), 90);
    assert_eq!(ip(10, 5, 5, 5).score(), 80);
    assert_eq!(ip(1, 1, 1, 1).score(), 10);
}

#[test]
fn address_predicates() {
    assert!(ip(127, 8, 8, 8).is_loopback());
    assert!(ip(169, 254, 9, 9).is_link_local());
    assert!(!ip(169, 253, 9, 9).is_link_local());
    assert!(ip(239, 255, 255, 250).is_multicast());
    assert!(!ip(240, 0, 0, 1).is_multicast());
    assert!(ip(0, 0, 0, 0).is_unspecified());
    assert!(!ip(0, 0, 0, 1).is_unspecified());
    assert!(ip(192, 168, 0, 1).is_usable());
}

#[test]
fn multicast_group_address() {
    assert_eq!(multicast_group(), ip(239, 255, 255, 250));
    assert!(multicast_group().is_multicast());
}
