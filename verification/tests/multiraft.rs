use blockyard::raft::multiraft::MultiRaft;
use blockyard::raft::types::{RaftRequest, RaftResponse};


#[test]
fn test_multiraft_new() {
    let mut mr = MultiRaft::new(1);
    assert_eq!(mr.node_id(), 1);
    assert_eq!(mr.group_count(), 0);
}

#[test]
fn test_multiraft_default() {
    let mut mr = MultiRaft::default();
    assert_eq!(mr.node_id(), 0);
}

#[test]
fn test_multiraft_create_group() {
    let mut mr = MultiRaft::new(1);
    mr.create_group(100).unwrap();
    assert_eq!(mr.group_count(), 1);
    assert!(mr.has_group(100));
    assert!(!mr.has_group(200));
}

#[test]
fn test_multiraft_create_duplicate_group() {
    let mut mr = MultiRaft::new(1);
    mr.create_group(100).unwrap();
    assert!(mr.create_group(100).is_err());
}

#[test]
fn test_multiraft_propose() {
    let mut mr = MultiRaft::new(1);
    mr.create_group(100).unwrap();
    let resp = mr.propose(
        100,
        &RaftRequest::VolumeCreate {
            name: "vol-1".into(),
            size_bytes: 1024,
            replicas: 3,
        },
    );
    assert!(resp.is_ok());
    let state = mr.get_state(100).unwrap();
    assert!(state.volumes.contains_key("vol-1"));
}

#[test]
fn test_multiraft_propose_missing_group() {
    let mut mr = MultiRaft::new(1);
    let resp = mr.propose(
        999,
        &RaftRequest::VolumeCreate {
            name: "vol-1".into(),
            size_bytes: 1024,
            replicas: 3,
        },
    );
    assert!(resp.is_err());
}

#[test]
fn test_multiraft_get_state() {
    let mut mr = MultiRaft::new(1);
    mr.create_group(100).unwrap();
    let state = mr.get_state(100).unwrap();
    assert!(state.volumes.is_empty());
}

#[test]
fn test_multiraft_get_state_missing() {
    let mut mr = MultiRaft::new(1);
    assert!(mr.get_state(999).is_none());
}

#[test]
fn test_multiraft_remove_group() {
    let mut mr = MultiRaft::new(1);
    mr.create_group(100).unwrap();
    assert!(mr.remove_group(100));
    assert_eq!(mr.group_count(), 0);
}

#[test]
fn test_multiraft_remove_missing() {
    let mut mr = MultiRaft::new(1);
    assert!(!mr.remove_group(999));
}

#[test]
fn test_multiraft_multiple_groups() {
    let mut mr = MultiRaft::new(1);
    mr.create_group(1).unwrap();
    mr.create_group(2).unwrap();
    mr.create_group(3).unwrap();
    assert_eq!(mr.group_count(), 3);
}

#[test]
fn test_raft_group_propose_increments_index() {
    let mut mr = MultiRaft::new(1);
    mr.create_group(1).unwrap();
    for i in 0..5 {
        mr.propose(
            1,
            &RaftRequest::VolumeCreate {
                name: format!("vol-{i}"),
                size_bytes: 1024,
                replicas: 1,
            },
        )
        .unwrap();
    }
    let state = mr.get_state(1).unwrap();
    assert_eq!(state.volumes.len(), 5);
    assert_eq!(state.applied_index, 5);
}
#[test]
fn groups_are_independent() {
    let mut mr = MultiRaft::new(1);
    mr.create_group(1).unwrap();
    mr.create_group(2).unwrap();
    let create = RaftRequest::VolumeCreate {
        name: "v".into(),
        size_bytes: 1,
        replicas: 1,
    };
    assert!(mr.can_propose(1));
    assert_eq!(mr.propose(1, &create).unwrap(), RaftResponse::Done);
    assert!(mr.get_state(1).unwrap().volumes.contains_key("v"));
    assert!(!mr.get_state(2).unwrap().volumes.contains_key("v"));
    assert_eq!(mr.get_state(2).unwrap().applied_index, 0);
    assert_eq!(
        mr.propose(9, &create).unwrap_err().to_text(),
        "raft error: group not found: 9"
    );
}
