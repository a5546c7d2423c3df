use canvas_replica::manifest::{ConnectionInfo, ConnectionInfoDict, ReplicaInfo};

fn replica(id: u16, active: bool) -> ReplicaInfo {
    ReplicaInfo {
        id,
        public_address: format!("public-{}", id),
        public_port: 8000 + id,
        address: format!("10.0.0.{}", id),
        socket_port: 9000 + id,
        active,
    }
}

fn ring(entries: &[(u16, bool)]) -> Vec<ReplicaInfo> {
    entries.iter().map(|(id, active)| replica(*id, *active)).collect()
}

#[test]
fn successor_is_next_entry() {
    let b = ring(&[(1, true), (2, true), (3, true)]);
    assert_eq!(ConnectionInfoDict::get_successor_id(&b, 1), 2);
    assert_eq!(ConnectionInfoDict::get_successor_id(&b, 2), 3);
}

#[test]
fn successor_wraps_round() {
    let b = ring(&[(1, true), (2, true), (3, true)]);
    assert_eq!(ConnectionInfoDict::get_successor_id(&b, 3), 1);
}

#[test]
fn successor_skips_inactive_entries() {
    let b = ring(&[(1, true), (2, false), (3, false), (4, true)]);
    assert_eq!(ConnectionInfoDict::get_successor_id(&b, 1), 4);
    assert_eq!(ConnectionInfoDict::get_successor_id(&b, 4), 1);
    assert_eq!(ConnectionInfoDict::get_successor_id(&b, 2), 4);
}

#[test]
fn successor_of_the_only_active_replica_is_itself() {
    let b = ring(&[(1, false), (2, true), (3, false)]);
    assert_eq!(ConnectionInfoDict::get_successor_id(&b, 2), 2);
    assert_eq!(ConnectionInfoDict::get_predecessor_id(&b, 2), 2);
}

#[test]
fn successor_without_any_active_replica_is_the_id_itself() {
    let b = ring(&[(1, false), (2, false)]);
    assert_eq!(ConnectionInfoDict::get_successor_id(&b, 1), 1);
    assert_eq!(ConnectionInfoDict::get_predecessor_id(&b, 2), 2);
}

#[test]
fn successor_of_an_unknown_id_is_the_id_itself() {
    let b = ring(&[(1, true), (2, true)]);
    assert_eq!(ConnectionInfoDict::get_successor_id(&b, 9), 9);
    assert_eq!(ConnectionInfoDict::get_predecessor_id(&b, 9), 9);
    assert_eq!(ConnectionInfoDict::get_successor_id(&Vec::new(), 9), 9);
}

#[test]
fn predecessor_is_previous_entry() {
    let b = ring(&[(1, true), (2, true), (3, true)]);
    assert_eq!(ConnectionInfoDict::get_predecessor_id(&b, 2), 1);
    assert_eq!(ConnectionInfoDict::get_predecessor_id(&b, 3), 2);
    assert_eq!(ConnectionInfoDict::get_predecessor_id(&b, 1), 3);
}

#[test]
fn predecessor_skips_inactive_entries() {
    let b = ring(&[(1, true), (2, false), (3, true), (4, false)]);
    assert_eq!(ConnectionInfoDict::get_predecessor_id(&b, 3), 1);
    assert_eq!(ConnectionInfoDict::get_predecessor_id(&b, 1), 3);
}

#[test]
fn ring_closes_on_every_active_replica() {
    let b = ring(&[(7, true), (2, false), (9, true), (4, true), (1, false), (5, true)]);
    for r in [7u16, 9, 4, 5] {
        let succ = ConnectionInfoDict::get_successor_id(&b, r);
        assert_eq!(ConnectionInfoDict::get_predecessor_id(&b, succ), r);
        let pred = ConnectionInfoDict::get_predecessor_id(&b, r);
        assert_eq!(ConnectionInfoDict::get_successor_id(&b, pred), r);
    }
}

#[test]
fn own_info_is_the_entry_with_that_id() {
    let b = ring(&[(1, true), (2, true)]);
    assert_eq!(ConnectionInfoDict::get_own_info(&b, 2), Some(&replica(2, true)));
    assert_eq!(ConnectionInfoDict::get_own_info(&b, 3), None);
}

#[test]
fn socket_addr_is_peer_address_and_port() {
    let b = ring(&[(1, true), (2, true)]);
    assert_eq!(
        ConnectionInfoDict::get_socket_addr(&b, 2),
        Some(("10.0.0.2".to_string(), 9002))
    );
    assert_eq!(ConnectionInfoDict::get_socket_addr(&b, 5), None);
}

#[test]
fn set_active_changes_only_the_flag_of_that_id() {
    let mut b = ring(&[(1, true), (2, true), (3, true)]);
    ConnectionInfoDict::set_active(&mut b, 2, false);
    assert_eq!(b, ring(&[(1, true), (2, false), (3, true)]));
    ConnectionInfoDict::set_active(&mut b, 2, true);
    assert_eq!(b, ring(&[(1, true), (2, true), (3, true)]));
    ConnectionInfoDict::set_active(&mut b, 8, false);
    assert_eq!(b, ring(&[(1, true), (2, true), (3, true)]));
}

#[test]
fn retain_active_keeps_the_active_entries_in_order() {
    let mut b = ring(&[(1, false), (2, true), (3, false), (4, true)]);
    ConnectionInfoDict::retain_active(&mut b);
    assert_eq!(b, ring(&[(2, true), (4, true)]));
}

#[test]
fn remove_drops_the_entry_with_that_id() {
    let mut b = ring(&[(1, true), (2, true), (3, true)]);
    ConnectionInfoDict::remove(&mut b, 2);
    assert_eq!(b, ring(&[(1, true), (3, true)]));
    ConnectionInfoDict::remove(&mut b, 2);
    assert_eq!(b, ring(&[(1, true), (3, true)]));
}

#[test]
fn unique_ids_are_recognised() {
    assert!(ConnectionInfoDict::has_unique_ids(&ring(&[(1, true), (2, true)])));
    assert!(!ConnectionInfoDict::has_unique_ids(&ring(&[(1, true), (2, true), (1, false)])));
    assert!(ConnectionInfoDict::has_unique_ids(&Vec::new()));
}

#[test]
fn first_active_peer_is_taken_in_manifest_order() {
    let b = ring(&[(1, true), (2, false), (3, true), (4, true)]);
    assert_eq!(ConnectionInfoDict::first_active_peer(&b, 1), Some(&replica(3, true)));
    assert_eq!(ConnectionInfoDict::first_active_peer(&b, 3), Some(&replica(1, true)));
    assert!(ConnectionInfoDict::has_active_peer(&b, 1));
    let lonely = ring(&[(1, true), (2, false)]);
    assert_eq!(ConnectionInfoDict::first_active_peer(&lonely, 1), None);
    assert!(!ConnectionInfoDict::has_active_peer(&lonely, 1));
}

#[test]
fn manifest_clone_is_equal() {
    let dict = ConnectionInfoDict {
        frontend: ConnectionInfo { address: "front".to_string(), port: 80 },
        proxy: ConnectionInfo { address: "proxy".to_string(), port: 81 },
        backend: ring(&[(1, true), (2, false)]),
    };
    assert_eq!(dict.clone(), dict);
}
