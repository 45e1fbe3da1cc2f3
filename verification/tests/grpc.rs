use blockyard::name_map::NameMap;
use blockyard::raft::app_state::AppState;
use blockyard::raft::grpc::{
    append_entries, forward_proposal, get_state, install_snapshot, missing_groups, request_vote,
    Status,
};
use blockyard::raft::multiraft::MultiRaft;
use blockyard::raft::types::RaftRequest;

fn create(name: &str) -> RaftRequest {
    RaftRequest::VolumeCreate {
        name: name.to_string(),
        size_bytes: 512,
        replicas: 1,
    }
}

#[test]
fn test_raft_service_append_entries_empty() {
    let mut mr = MultiRaft::new(1);
    mr.create_group(42).unwrap();

    let reply = append_entries(&mut mr, 42, 1, 0, &vec![]).unwrap();
    assert!(reply.success);
    assert_eq!(reply.term, 1);
    assert_eq!(reply.last_log_index, 0);
}

#[test]
fn test_raft_service_append_entries_with_entry() {
    let mut mr = MultiRaft::new(1);
    mr.create_group(42).unwrap();

    let reply = append_entries(&mut mr, 42, 1, 0, &vec![Ok(create("vol-ae"))]).unwrap();
    assert!(reply.success);
    assert_eq!(reply.last_log_index, 1);

    // Verify the entry was applied.
    let state = mr.get_state(42).unwrap();
    assert!(state.volumes.contains_key("vol-ae"));
}

#[test]
fn test_raft_service_append_entries_unknown_group() {
    let mut mr = MultiRaft::new(1);
    let err = append_entries(&mut mr, 999, 1, 0, &vec![]).unwrap_err();
    assert_eq!(err, Status::NotFound("raft group 999 not found".to_string()));
}

#[test]
fn test_raft_service_vote() {
    let mut mr = MultiRaft::new(1);
    mr.create_group(10).unwrap();

    let reply = request_vote(&mr, 10, 5).unwrap();
    assert!(reply.vote_granted);
    assert_eq!(reply.term, 5);
}

#[test]
fn test_raft_service_install_snapshot() {
    let mut mr = MultiRaft::new(1);
    mr.create_group(10).unwrap();

    let term = install_snapshot(&mr, 10, 3, &Ok(AppState::default())).unwrap();
    assert_eq!(term, 3);
}

#[test]
fn test_heartbeat_service() {
    let mut mr = MultiRaft::new(1);
    mr.create_group(10).unwrap();
    mr.create_group(20).unwrap();

    assert!(missing_groups(&mr, &vec![10, 20]).is_empty());
}

#[test]
fn test_heartbeat_service_with_missing_group() {
    let mut mr = MultiRaft::new(1);
    mr.create_group(10).unwrap();
    // group 99 does NOT exist

    assert_eq!(missing_groups(&mr, &vec![10, 99]), vec![99]);
}

#[test]
fn test_cluster_service_forward_proposal() {
    let mut mr = MultiRaft::new(1);
    mr.create_group(100).unwrap();

    let reply = forward_proposal(&mut mr, 100, &Ok(create("forwarded-vol"))).unwrap();
    assert!(reply.success, "error: {}", reply.error);

    let state = mr.get_state(100).unwrap();
    assert!(state.volumes.contains_key("forwarded-vol"));
}

#[test]
fn test_cluster_service_forward_proposal_bad_payload() {
    let mut mr = MultiRaft::new(1);
    mr.create_group(100).unwrap();

    let err = forward_proposal(&mut mr, 100, &Err("expected ident".to_string())).unwrap_err();
    assert_eq!(
        err,
        Status::InvalidArgument("failed to decode proposal payload: expected ident".to_string())
    );
}

#[test]
fn test_cluster_service_forward_proposal_missing_group() {
    let mut mr = MultiRaft::new(1);
    // No group created.

    let reply = forward_proposal(&mut mr, 999, &Ok(create("v"))).unwrap();
    assert!(!reply.success);
    assert!(reply.error.contains("not found"), "got: {}", reply.error);
}

#[test]
fn test_cluster_service_get_state() {
    let mut mr = MultiRaft::new(1);
    mr.create_group(100).unwrap();
    mr.propose(
        100,
        &RaftRequest::NodeRegister {
            node_id: 7,
            addr: "host:1234".into(),
        },
    )
    .unwrap();

    let state = get_state(&mr, 100).unwrap();
    assert!(state.nodes.contains_key(&7));
}

#[test]
fn test_cluster_service_get_state_missing_group() {
    let mr = MultiRaft::new(1);

    let err = get_state(&mr, 999).unwrap_err();
    assert!(err.contains("not found"));
}

#[test]
fn an_undecodable_entry_stops_the_batch() {
    let mut mr = MultiRaft::new(1);
    mr.create_group(1).unwrap();
    let entries = vec![Ok(create("a")), Err("eof".to_string()), Ok(create("b"))];
    let err = append_entries(&mut mr, 1, 1, 0, &entries).unwrap_err();
    assert!(matches!(err, Status::InvalidArgument(_)));
    let state = mr.get_state(1).unwrap();
    assert!(state.volumes.contains_key("a"));
    assert!(!state.volumes.contains_key("b"));
    assert_eq!(
        install_snapshot(&mr, 1, 1, &Err("eof".to_string())).unwrap_err(),
        Status::InvalidArgument("invalid snapshot data: eof".to_string())
    );
    assert!(request_vote(&mr, 2, 1).is_err());
}

#[test]
fn high_positions_matter_only_where_entries_are_taken() {
    let mut mr = MultiRaft::new(1);
    let err = append_entries(&mut mr, 9, 1, u64::MAX, &vec![Ok(create("a"))]).unwrap_err();
    assert_eq!(err, Status::NotFound("raft group 9 not found".to_string()));
    mr.create_group(1).unwrap();
    let entries = vec![Ok(create("a")), Err("eof".to_string())];
    let err = append_entries(&mut mr, 1, 1, u64::MAX, &entries).unwrap_err();
    assert_eq!(
        err,
        Status::InvalidArgument("failed to decode log entry: eof".to_string())
    );
    assert!(mr.get_state(1).unwrap().volumes.contains_key("a"));
    let reply = append_entries(&mut mr, 1, 7, u64::MAX, &vec![]).unwrap();
    assert_eq!(reply.last_log_index, u64::MAX);
}

#[test]
fn a_copy_of_a_name_map_has_the_same_entries() {
    let mut map = NameMap::new();
    map.insert("a".to_string(), 1u64);
    map.insert("b".to_string(), 2);
    let mut copy = map.clone();
    assert_eq!(copy.get("a"), Some(&1));
    assert_eq!(copy.len(), 2);
    copy.remove("a");
    assert!(map.contains_key("a"));
    assert!(!copy.contains_key("a"));
}
