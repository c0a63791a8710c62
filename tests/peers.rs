use lan_discovery::adapter::{peers_request_status, STATUS_INVALID_ARGUMENT, STATUS_OK};
use lan_discovery::addr::{Endpoint, Ipv4};
use lan_discovery::config::PEER_TIMEOUT_MS;
use lan_discovery::registry::{Announcement, Peer, PeerRegistry, Received};

fn src(d: u8, port: u16) -> Endpoint {
    Endpoint { ip: Ipv4::new(192, 168, 1, d), port }
}

fn peer(name: &str, port: u16, last_seen: u64) -> Peer {
    Peer { addr: src(2, 50000), name: name.to_string(), port, last_seen }
}

#[test]
fn new_registry_is_empty() {
    let r = PeerRegistry::new();
    assert_eq!(r.len(), 0);
    assert!(r.snapshot().is_empty());
}

#[test]
fn upsert_records_and_replaces_by_name() {
    let mut r = PeerRegistry::new();
    r.upsert(peer("Bob", 9090, 10));
    r.upsert(peer("Carol", 7070, 11));
    assert_eq!(r.len(), 2);
    let mut moved = peer("Bob", 9191, 20);
    moved.addr = src(3, 40000);
    r.upsert(moved);
    assert_eq!(r.len(), 2);
    let b = r.get(&"Bob".to_string()).unwrap();
    assert_eq!(b.port, 9191);
    assert_eq!(b.last_seen, 20);
    assert_eq!(b.addr, src(3, 40000));
    assert!(r.contains(&"Carol".to_string()));
    assert!(r.get(&"Dave".to_string()).is_none());
}

#[test]
fn peer_survives_sweep_inside_window() {
    let mut r = PeerRegistry::new();
    r.upsert(peer("N", 1, 1000));
    r.evict_stale(1000 + PEER_TIMEOUT_MS - 1, PEER_TIMEOUT_MS);
    assert!(r.contains(&"N".to_string()));
}

#[test]
fn peer_leaves_once_window_elapses() {
    let mut r = PeerRegistry::new();
    r.upsert(peer("N", 1, 1000));
    r.evict_stale(1000 + PEER_TIMEOUT_MS, PEER_TIMEOUT_MS);
    assert!(!r.contains(&"N".to_string()));
    assert_eq!(r.len(), 0);
}

#[test]
fn sweep_removes_only_stale_peers() {
    let mut r = PeerRegistry::new();
    r.upsert(peer("old", 1, 100));
    r.upsert(peer("fresh", 2, 4000));
    r.upsert(peer("older", 3, 50));
    r.upsert(peer("future", 4, 9000));
    r.evict_stale(5000, 2000);
    let names: Vec<String> = r.snapshot().into_iter().map(|p| p.name).collect();
    assert_eq!(names.len(), 2);
    assert!(names.contains(&"fresh".to_string()));
    assert!(names.contains(&"future".to_string()));
}

#[test]
fn zero_timeout_sweeps_everything_not_in_the_future() {
    let mut r = PeerRegistry::new();
    r.upsert(peer("a", 1, 5));
    r.upsert(peer("b", 1, 7));
    r.evict_stale(7, 0);
    assert_eq!(r.len(), 0);
}

#[test]
fn snapshot_is_an_independent_copy() {
    let mut r = PeerRegistry::new();
    r.upsert(peer("Bob", 9090, 1));
    let snap = r.snapshot();
    r.upsert(peer("Bob", 1111, 2));
    r.upsert(peer("Eve", 2222, 2));
    assert_eq!(snap.len(), 1);
    assert_eq!(snap[0].name, "Bob");
    assert_eq!(snap[0].port, 9090);
    assert_eq!(snap[0].last_seen, 1);
}

#[test]
fn own_announcement_is_not_recorded() {
    let mut r = PeerRegistry::new();
    let me = "Alice".to_string();
    let out = r.on_datagram(&me, Some(Announcement::new("Alice".to_string(), 8080)), src(9, 1234), 50);
    assert_eq!(out, Received::OwnAnnouncement);
    assert_eq!(r.len(), 0);
    assert!(!r.contains(&me));
}

#[test]
fn malformed_datagram_changes_nothing() {
    let mut r = PeerRegistry::new();
    r.upsert(peer("Bob", 9090, 1));
    let out = r.on_datagram(&"Alice".to_string(), None, src(9, 1234), 50);
    assert_eq!(out, Received::Malformed);
    assert_eq!(r.len(), 1);
    let b = r.get(&"Bob".to_string()).unwrap();
    assert_eq!(b.port, 9090);
    assert_eq!(b.last_seen, 1);
}

#[test]
fn announcement_from_another_peer_is_recorded() {
    let mut r = PeerRegistry::new();
    let out = r.on_datagram(&"Alice".to_string(), Some(Announcement::new("Bob".to_string(), 9090)), src(7, 40123), 77);
    assert_eq!(out, Received::Recorded);
    let b = r.get(&"Bob".to_string()).unwrap();
    assert_eq!(b.name, "Bob");
    assert_eq!(b.port, 9090);
    assert_eq!(b.addr, src(7, 40123));
    assert_eq!(b.last_seen, 77);
}

#[test]
fn boundary_status_codes() {
    assert_eq!(peers_request_status(true, true, true), STATUS_OK);
    assert_eq!(peers_request_status(false, true, true), STATUS_INVALID_ARGUMENT);
    assert_eq!(peers_request_status(true, false, true), STATUS_INVALID_ARGUMENT);
    assert_eq!(peers_request_status(true, true, false), STATUS_INVALID_ARGUMENT);
    assert_eq!(STATUS_INVALID_ARGUMENT, -1);
}
