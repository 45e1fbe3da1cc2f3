use blockyard::ids::{DiskId, EpochId, ExtentId, NodeId, OperationId, SessionId, VolumeId};
use blockyard::raft::multiraft::MultiRaft;
use blockyard::raft::request::{BlockRange, ExtentMappingEntry, MetadataRequest};
use blockyard::raft::response::MetadataResponse;
use blockyard::raft::state_machine::MetadataStateMachineData;
use blockyard::raft::types::{RaftRequest, RaftResponse};
use blockyard::types::{LeaseRequest, LeaseResponse, ProtectionPolicy};

fn with_volumes(count: u128) -> MetadataStateMachineData {
    let mut sm = MetadataStateMachineData::new();
    for v in 1..=count {
        let response = sm.apply_request(&MetadataRequest::CreateVolume {
            volume_id: VolumeId::new(v),
            size_bytes: 1 << 20,
            protection: ProtectionPolicy::Replicated { replicas: 3 },
        });
        assert_eq!(response, MetadataResponse::Done);
    }
    sm
}

fn entry(volume: u128, start: u64, version: u64, previous: Option<u64>) -> ExtentMappingEntry {
    ExtentMappingEntry {
        volume_id: VolumeId::new(volume),
        block_range: BlockRange::new(start, start + 64),
        extent_id: ExtentId::new(version as u128),
        extent_version: version,
        epoch: EpochId::new(0),
        replica_locations: vec![NodeId::new(1)],
        checksums: vec![vec![1, 2, 3]],
        operation_id: Some(OperationId::new(version as u128)),
        previous_version: previous,
    }
}

fn commit(e: ExtentMappingEntry) -> MetadataRequest {
    MetadataRequest::CommitExtentMapping {
        volume_id: e.volume_id,
        block_range: e.block_range,
        extent_id: e.extent_id,
        extent_version: e.extent_version,
        epoch: e.epoch,
        replica_locations: e.replica_locations,
        checksums: e.checksums,
        operation_id: e.operation_id,
        previous_version: e.previous_version,
    }
}

fn error(response: MetadataResponse) -> String {
    match response {
        MetadataResponse::Error(msg) => msg,
        other => panic!("expected a refusal, got {other:?}"),
    }
}

#[test]
fn a_batch_is_committed_as_a_whole_or_not_at_all() {
    let mut sm = with_volumes(2);
    let good = vec![
        entry(1, 0, 1, Some(0)),
        entry(1, 64, 2, None),
        entry(2, 0, 3, None),
        entry(1, 0, 4, Some(1)),
    ];
    let response = sm.apply_request(&MetadataRequest::CommitExtentMappingBatch { mappings: good });
    assert_eq!(response, MetadataResponse::Epoch(EpochId::new(0)));
    let table = sm.get_volume_mappings(&VolumeId::new(1)).unwrap();
    assert_eq!(table.get(&0).unwrap().extent_version, 4);
    assert_eq!(table.get(&64).unwrap().extent_version, 2);
    assert!(sm.lookup_by_extent_version(1).is_none());
    assert!(sm.lookup_by_operation_id(&OperationId::new(4)).is_some());

    let bad = vec![
        entry(1, 128, 5, None),
        entry(2, 0, 6, Some(99)),
        entry(2, 64, 7, None),
    ];
    let response = sm.apply_request(&MetadataRequest::CommitExtentMappingBatch { mappings: bad });
    assert_eq!(error(response), "CAS failure: expected version 99, found 3");
    assert!(sm.lookup_by_extent_version(5).is_none());
    assert!(sm.lookup_by_extent_version(7).is_none());
    assert_eq!(sm.get_volume_mappings(&VolumeId::new(1)).unwrap().len(), 2);
}

#[test]
fn every_refusal_of_a_commit_says_why() {
    let mut sm = with_volumes(1);
    let missing = VolumeId::new(9).to_text();
    assert_eq!(
        error(sm.apply_request(&commit(entry(9, 0, 1, None)))),
        format!("volume {missing} not found")
    );
    assert_eq!(
        error(sm.apply_request(&commit(entry(1, 0, 1, Some(5))))),
        "CAS failure: no existing mapping at block 0, expected version 5"
    );
    sm.apply_request(&MetadataRequest::AdvanceEpoch);
    assert_eq!(
        error(sm.apply_request(&commit(entry(1, 0, 1, None)))),
        "stale epoch: request has 0, current is 1"
    );
    assert!(sm.lookup_by_extent_version(1).is_none());
}

#[test]
fn commits_elsewhere_and_other_requests_keep_a_mapping_found() {
    let mut sm = with_volumes(3);
    sm.apply_request(&commit(entry(1, 0, 10, None)));
    let op = OperationId::new(10);
    sm.apply_request(&commit(entry(1, 64, 11, None)));
    sm.apply_request(&commit(entry(1, 64, 12, None)));
    sm.apply_request(&commit(entry(2, 0, 13, None)));
    sm.apply_request(&MetadataRequest::DeleteVolume {
        volume_id: VolumeId::new(2),
    });
    sm.apply_request(&MetadataRequest::AddNode {
        node_id: NodeId::new(1),
        addr: "a".to_string(),
    });
    assert_eq!(sm.lookup_by_operation_id(&op).unwrap().extent_version, 10);
    assert_eq!(sm.lookup_by_extent_version(10).unwrap().block_range.start, 0);
    assert!(sm.lookup_by_extent_version(11).is_none());
    assert!(sm.lookup_by_extent_version(13).is_none());
    sm.apply_request(&MetadataRequest::AdvanceEpoch);
    assert!(sm.has_tables());
    assert!(sm.lookup_by_operation_id(&op).is_some());
}

#[test]
fn disks_are_registered_updated_and_deregistered() {
    let mut sm = MetadataStateMachineData::new();
    let disk_id = DiskId::new(7);
    let register = |capacity_bytes| MetadataRequest::RegisterDisk {
        disk_id,
        node_id: NodeId::new(1),
        capacity_bytes,
    };
    assert_eq!(sm.apply_request(&register(100)), MetadataResponse::DiskRegistered);
    let usage = MetadataRequest::UpdateDiskUsage {
        disk_id,
        used_bytes: 40,
    };
    assert_eq!(sm.apply_request(&usage), MetadataResponse::Done);
    assert_eq!(sm.apply_request(&register(200)), MetadataResponse::DiskRegistered);
    assert_eq!(sm.disks[&7].capacity_bytes, 200);
    assert_eq!(sm.disks[&7].used_bytes, 40);
    let deregister = MetadataRequest::DeregisterDisk { disk_id };
    assert_eq!(sm.apply_request(&deregister), MetadataResponse::Done);
    assert_eq!(
        error(sm.apply_request(&deregister)),
        format!("disk {} not found", disk_id.to_text())
    );
    assert!(sm.apply_request(&usage).is_error());
}

#[test]
fn expired_leases_are_cleaned_up() {
    let mut sm = with_volumes(3);
    for v in 1..=3u128 {
        sm.apply_request(&MetadataRequest::Lease(LeaseRequest::Acquire {
            volume_id: VolumeId::new(v),
            session_id: SessionId::new(v),
            now_ms: 0,
            ttl_ms: v as u64 * 100,
        }));
    }
    let cleanup = MetadataRequest::CleanupExpiredLeases { now_ms: 200 };
    assert_eq!(sm.apply_request(&cleanup), MetadataResponse::Done);
    assert!(sm.get_lease(&VolumeId::new(1)).is_none());
    assert!(sm.get_lease(&VolumeId::new(3)).is_some());
    assert_eq!(sm.lease_version_counter, 3);
}

#[test]
fn old_lease_versions_are_fenced_off() {
    let mut sm = with_volumes(1);
    let volume_id = VolumeId::new(1);
    let acquire = |session: u128, now_ms: u64| {
        MetadataRequest::Lease(LeaseRequest::Acquire {
            volume_id,
            session_id: SessionId::new(session),
            now_ms,
            ttl_ms: 100,
        })
    };
    sm.apply_request(&acquire(1, 0));
    assert!(sm.validate_lease(&volume_id, SessionId::new(1), 1, 99).is_ok());
    assert!(sm.validate_lease(&volume_id, SessionId::new(1), 1, 100).is_err());
    let taken = sm.apply_request(&acquire(2, 150));
    assert_eq!(
        taken,
        MetadataResponse::Lease(LeaseResponse::Granted {
            lease_version: 2,
            expires_at_ms: 250
        })
    );
    for session in 1..=2 {
        let fault = sm.validate_lease(&volume_id, SessionId::new(session), 1, 160);
        assert!(fault.is_err());
    }
    assert_eq!(
        sm.validate_lease(&volume_id, SessionId::new(2), 1, 160).unwrap_err(),
        "stale lease version: request has 1, current is 2"
    );
}

#[test]
fn requests_that_would_overflow_are_told_apart() {
    let mut sm = with_volumes(1);
    let acquire = |ttl_ms| {
        MetadataRequest::Lease(LeaseRequest::Acquire {
            volume_id: VolumeId::new(1),
            session_id: SessionId::new(1),
            now_ms: 10,
            ttl_ms,
        })
    };
    assert!(sm.can_apply(&acquire(u64::MAX - 10)));
    assert!(!sm.can_apply(&acquire(u64::MAX)));
    sm.raft_id_counter = u64::MAX;
    assert!(!sm.can_apply(&MetadataRequest::RegisterNode {
        node_id: NodeId::new(1),
        addr: String::new(),
    }));
}

#[test]
fn the_epoch_stops_at_the_last_number() {
    let mut sm = MetadataStateMachineData::new();
    sm.epoch = EpochId::new(u64::MAX);
    let response = sm.apply_request(&MetadataRequest::AdvanceEpoch);
    assert_eq!(response, MetadataResponse::Epoch(EpochId::new(u64::MAX)));
}

#[test]
fn a_refused_group_request_moves_only_the_index() {
    let mut mr = MultiRaft::new(1);
    mr.create_group(1).unwrap();
    let create = RaftRequest::VolumeCreate {
        name: "v".to_string(),
        size_bytes: 8,
        replicas: 2,
    };
    assert_eq!(mr.propose(1, &create).unwrap(), RaftResponse::Done);
    assert!(matches!(mr.propose(1, &create).unwrap(), RaftResponse::Error(_)));
    let state = mr.get_state(1).unwrap();
    assert_eq!(state.applied_index, 2);
    assert_eq!(state.volumes.len(), 1);
    assert_eq!(state.volumes.get("v").unwrap().size_bytes, 8);
    let missing = RaftRequest::VolumeExpand {
        name: "w".to_string(),
        new_size: 9,
    };
    assert_eq!(
        mr.propose(1, &missing).unwrap(),
        RaftResponse::Error("volume not found: w".to_string())
    );
}

#[test]
fn a_version_stays_found_until_its_mapping_goes() {
    let mut sm = with_volumes(3);
    sm.apply_request(&commit(entry(1, 0, 10, None)));
    let found = |sm: &MetadataStateMachineData| {
        sm.lookup_by_extent_version(10).map(|m| m.extent_id)
    };
    for req in [
        commit(entry(1, 64, 11, None)),
        commit(entry(1, 64, 12, Some(11))),
        commit(entry(2, 0, 13, None)),
        // Refused, so that the version is not committed a second time.
        commit(entry(2, 0, 10, Some(99))),
        commit(entry(1, 0, 14, Some(99))),
        MetadataRequest::CommitExtentMappingBatch {
            mappings: vec![entry(2, 64, 15, None), entry(3, 0, 16, None)],
        },
        MetadataRequest::DeleteVolume {
            volume_id: VolumeId::new(2),
        },
        MetadataRequest::AdvanceEpoch,
    ] {
        sm.apply_request(&req);
        assert_eq!(found(&sm), Some(ExtentId::new(10)));
    }
    sm.apply_request(&MetadataRequest::DeleteVolume {
        volume_id: VolumeId::new(1),
    });
    assert_eq!(found(&sm), None);
}

#[test]
fn consensus_numbers_are_given_out_without_gaps() {
    let mut sm = MetadataStateMachineData::new();
    let register = |sm: &mut MetadataStateMachineData, node: u128, addr: &str| {
        sm.apply_request(&MetadataRequest::RegisterNode {
            node_id: NodeId::new(node),
            addr: addr.to_string(),
        })
    };
    for node in [7u128, 5, 9] {
        register(&mut sm, node, "a:1");
    }
    sm.apply_request(&MetadataRequest::RemoveNode {
        node_id: NodeId::new(5),
    });
    assert_eq!(register(&mut sm, 5, "b:2"), MetadataResponse::NodeRegistered(2));
    assert_eq!(sm.get_node(&NodeId::new(5)).unwrap().addr, "b:2");
    assert_eq!(register(&mut sm, 6, "c:3"), MetadataResponse::NodeRegistered(4));
    assert_eq!(sm.raft_id_counter(), 4);
    assert_eq!(sm.get_node_id_by_raft_id(0), None);
    for (raft_id, node) in [(1, 7), (2, 5), (3, 9), (4, 6)] {
        let node = NodeId::new(node);
        assert_eq!(sm.get_node_id_by_raft_id(raft_id), Some(node));
        assert_eq!(sm.get_raft_id(&node), Some(raft_id));
    }
    assert_eq!(sm.get_node_id_by_raft_id(5), None);
}

#[test]
fn a_release_can_be_repeated() {
    let mut sm = with_volumes(2);
    let lease = |req: LeaseRequest| MetadataRequest::Lease(req);
    for v in 1..=2u128 {
        sm.apply_request(&lease(LeaseRequest::Acquire {
            volume_id: VolumeId::new(v),
            session_id: SessionId::new(v),
            now_ms: 0,
            ttl_ms: 10,
        }));
    }
    let release = |session: u128| {
        lease(LeaseRequest::Release {
            volume_id: VolumeId::new(1),
            session_id: SessionId::new(session),
        })
    };
    assert!(matches!(
        sm.apply_request(&release(2)),
        MetadataResponse::Lease(LeaseResponse::Denied { .. })
    ));
    assert!(sm.get_lease(&VolumeId::new(1)).is_some());
    for session in [1, 1, 2] {
        assert_eq!(
            sm.apply_request(&release(session)),
            MetadataResponse::Lease(LeaseResponse::Released)
        );
        assert!(sm.get_lease(&VolumeId::new(1)).is_none());
        assert!(sm.get_lease(&VolumeId::new(2)).is_some());
        assert_eq!(sm.lease_version_counter, 2);
    }
}

#[test]
fn lease_versions_are_given_out_once_and_in_order() {
    let mut sm = with_volumes(2);
    let acquire = |v: u128, session: u128, now_ms: u64| LeaseRequest::Acquire {
        volume_id: VolumeId::new(v),
        session_id: SessionId::new(session),
        now_ms,
        ttl_ms: 10,
    };
    let release = LeaseRequest::Release {
        volume_id: VolumeId::new(1),
        session_id: SessionId::new(1),
    };
    let renew = LeaseRequest::Renew {
        volume_id: VolumeId::new(2),
        session_id: SessionId::new(2),
        now_ms: 5,
        ttl_ms: 10,
    };
    let mut given = Vec::new();
    for req in [
        acquire(1, 1, 0),
        acquire(2, 2, 0),
        // Denied: the lease still runs.
        acquire(2, 3, 1),
        renew,
        release,
        acquire(1, 4, 6),
        // The lease has expired.
        acquire(2, 5, 100),
    ] {
        let before = sm.lease_version_counter;
        match sm.apply_request(&MetadataRequest::Lease(req)) {
            MetadataResponse::Lease(LeaseResponse::Granted { lease_version, .. })
            | MetadataResponse::Lease(LeaseResponse::Renewed { lease_version, .. }) => {
                assert_eq!(lease_version, before + 1);
                assert_eq!(lease_version, sm.lease_version_counter);
                given.push(lease_version);
            }
            _ => assert_eq!(sm.lease_version_counter, before),
        }
    }
    assert_eq!(given, vec![1, 2, 3, 4, 5]);
}
