use blockyard::raft::heartbeat::HeartbeatConsolidator;


#[test]
fn test_heartbeat_consolidator_new() {
    let mut hc = HeartbeatConsolidator::new(200);
    assert_eq!(hc.total_pairs(), 0);
}

#[test]
fn test_register_group() {
    let mut hc = HeartbeatConsolidator::new(200);
    hc.register_group(1, &[10, 20, 30]);
    let groups = hc.groups_between(10, 20);
    assert_eq!(groups, vec![1]);
    let groups = hc.groups_between(20, 10);
    assert_eq!(groups, vec![1]);
}

#[test]
fn test_register_multiple_groups_same_pair() {
    let mut hc = HeartbeatConsolidator::new(200);
    hc.register_group(1, &[10, 20]);
    hc.register_group(2, &[10, 20]);
    let groups = hc.groups_between(10, 20);
    assert_eq!(groups.len(), 2);
    assert!(groups.contains(&1));
    assert!(groups.contains(&2));
}

#[test]
fn test_unregister_group() {
    let mut hc = HeartbeatConsolidator::new(200);
    hc.register_group(1, &[10, 20]);
    hc.register_group(2, &[10, 20]);
    hc.unregister_group(1);
    let groups = hc.groups_between(10, 20);
    assert_eq!(groups, vec![2]);
}

#[test]
fn test_unregister_last_group_removes_pair() {
    let mut hc = HeartbeatConsolidator::new(200);
    hc.register_group(1, &[10, 20]);
    hc.unregister_group(1);
    assert_eq!(hc.total_pairs(), 0);
}

#[test]
fn test_peers_for() {
    let mut hc = HeartbeatConsolidator::new(200);
    hc.register_group(1, &[10, 20, 30]);
    let mut peers = hc.peers_for(10);
    peers.sort();
    assert_eq!(peers, vec![20, 30]);
}

#[test]
fn test_peers_for_no_groups() {
    let mut hc = HeartbeatConsolidator::new(200);
    assert!(hc.peers_for(10).is_empty());
}

#[test]
fn test_should_heartbeat_first_time() {
    let mut hc = HeartbeatConsolidator::new(200);
    assert!(hc.should_heartbeat(20, 1_000));
}

#[test]
fn test_should_heartbeat_after_send() {
    let mut hc = HeartbeatConsolidator::new(60_000);
    hc.mark_heartbeat_sent(20, 1_000);
    assert!(!hc.should_heartbeat(20, 1_000));
}

#[test]
fn test_should_heartbeat_after_interval() {
    let mut hc = HeartbeatConsolidator::new(0);
    hc.mark_heartbeat_sent(20, 1_000);
    assert!(hc.should_heartbeat(20, 1_001));
}

#[test]
fn test_generate_heartbeats() {
    let mut hc = HeartbeatConsolidator::new(0);
    hc.register_group(1, &[10, 20, 30]);
    hc.register_group(2, &[10, 20]);

    let hbs = hc.generate_heartbeats(10, 1_000);
    assert_eq!(hbs.len(), 2);

    let to_20 = hbs.iter().find(|h| h.to == 20).unwrap();
    assert_eq!(to_20.from, 10);
    assert_eq!(to_20.groups.len(), 2);

    let to_30 = hbs.iter().find(|h| h.to == 30).unwrap();
    assert_eq!(to_30.groups.len(), 1);
}

#[test]
fn test_generate_heartbeats_respects_interval() {
    let mut hc = HeartbeatConsolidator::new(60_000);
    hc.register_group(1, &[10, 20]);

    let hbs1 = hc.generate_heartbeats(10, 1_000);
    assert_eq!(hbs1.len(), 1);

    let hbs2 = hc.generate_heartbeats(10, 1_000);
    assert_eq!(hbs2.len(), 0);
}

#[test]
fn test_total_pairs() {
    let mut hc = HeartbeatConsolidator::new(200);
    hc.register_group(1, &[10, 20, 30]);
    assert_eq!(hc.total_pairs(), 6);
}

#[test]
fn test_groups_between_no_relationship() {
    let mut hc = HeartbeatConsolidator::new(200);
    hc.register_group(1, &[10, 20]);
    assert!(hc.groups_between(10, 99).is_empty());
}
#[test]
fn heartbeats_cover_every_shared_group() {
    let mut hc = HeartbeatConsolidator::new(100);
    hc.register_group(1, &[10, 20, 30]);
    hc.register_group(2, &[10, 30]);
    hc.register_group(3, &[20, 30]);
    let sent = hc.generate_heartbeats(10, 0);
    assert_eq!(sent.len(), 2);
    for hb in &sent {
        assert_eq!(hb.from, 10);
        let mut groups = hb.groups.clone();
        groups.sort();
        let mut shared = hc.groups_between(10, hb.to);
        shared.sort();
        assert_eq!(groups, shared);
    }
    assert!(hc.generate_heartbeats(10, 99).is_empty());
    assert_eq!(hc.generate_heartbeats(10, 100).len(), 2);
}
