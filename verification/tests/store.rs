use blockyard::ids::{EpochId, ExtentId, OperationId, VolumeId};
use blockyard::raft::request::{BlockRange, MetadataRequest};
use blockyard::raft::store::{LogStore, SnapshotMeta, StateMachineStore, StoredSnapshot};
use blockyard::raft::typ::{Entry, EntryPayload, LogId, Membership, StoredMembership, Vote};
use blockyard::types::ProtectionPolicy;


fn make_entry(index: u64, term: u64, payload: EntryPayload) -> Entry {
    Entry {
        log_id: LogId::new(term, 1, index),
        payload,
    }
}

fn make_blank(index: u64, term: u64) -> Entry {
    make_entry(index, term, EntryPayload::Blank)
}

fn make_normal(index: u64, term: u64, req: MetadataRequest) -> Entry {
    make_entry(index, term, EntryPayload::Normal(req))
}

#[test]
fn test_log_store_append_and_read() {
    let mut store = LogStore::new();
    let entries = vec![make_blank(1, 1), make_blank(2, 1)];
    store.append(entries);

    let read = store.try_get_log_entries(1, 2);
    assert_eq!(read.len(), 2);
}

#[test]
fn test_log_store_state() {
    let mut store = LogStore::new();
    let state = store.get_log_state();
    assert!(state.last_log_id.is_none());
    assert!(state.last_purged_log_id.is_none());

    store.append(vec![make_blank(1, 1)]);

    let state = store.get_log_state();
    assert_eq!(state.last_log_id.unwrap().index, 1);
}

#[test]
fn test_log_store_vote() {
    let mut store = LogStore::new();
    assert!(store.read_vote().is_none());

    let vote = Vote::new(1, 1);
    store.save_vote(&vote);
    assert_eq!(store.read_vote(), Some(vote));
}

#[test]
fn test_log_store_truncate() {
    let mut store = LogStore::new();
    let entries = vec![make_blank(1, 1), make_blank(2, 1), make_blank(3, 1)];
    store.append(entries);

    let lid = LogId::new(1, 1, 2);
    store.truncate(lid);

    let read = store.try_get_log_entries(1, 3);
    assert_eq!(read.len(), 1);
    assert_eq!(read[0].log_id.index, 1);
}

#[test]
fn test_log_store_purge() {
    let mut store = LogStore::new();
    let entries = vec![make_blank(1, 1), make_blank(2, 1), make_blank(3, 1)];
    store.append(entries);

    let lid = LogId::new(1, 1, 2);
    store.purge(lid);

    let state = store.get_log_state();
    assert_eq!(state.last_purged_log_id.unwrap().index, 2);

    let read = store.try_get_log_entries(1, 3);
    assert_eq!(read.len(), 1);
    assert_eq!(read[0].log_id.index, 3);
}

#[test]
fn test_log_store_get_reader() {
    let mut store = LogStore::new();
    store.append(vec![make_blank(1, 1)]);

    let reader = &store;
    let entries = reader.try_get_log_entries(1, 1);
    assert_eq!(entries.len(), 1);
}

#[test]
fn test_state_machine_apply_blank() {
    let mut sm = StateMachineStore::new();
    let entries = vec![make_blank(1, 1)];
    let resps = sm.apply(entries);
    assert_eq!(resps.len(), 1);
    assert!(!resps[0].is_error());

    let (last, _) = sm.applied_state();
    assert_eq!(last.unwrap().index, 1);
}

#[test]
fn test_state_machine_apply_create_volume() {
    let mut sm = StateMachineStore::new();
    let vid = VolumeId::generate();
    let entry = make_normal(
        1,
        1,
        MetadataRequest::CreateVolume {
            volume_id: vid,
            size_bytes: 1024,
            protection: ProtectionPolicy::Replicated { replicas: 3 },
        },
    );

    let resps = sm.apply(vec![entry]);
    assert!(!resps[0].is_error());

    let data = sm.data();
    assert!(data.get_volume(&vid).is_some());
}

#[test]
fn test_state_machine_apply_multiple() {
    let mut sm = StateMachineStore::new();
    let vid = VolumeId::generate();
    let eid = ExtentId::generate();

    let entries = vec![
        make_normal(
            1,
            1,
            MetadataRequest::CreateVolume {
                volume_id: vid,
                size_bytes: 1024,
                protection: ProtectionPolicy::Replicated { replicas: 1 },
            },
        ),
        make_normal(
            2,
            1,
            MetadataRequest::CommitExtentMapping {
                volume_id: vid,
                block_range: BlockRange::new(0, 64),
                extent_id: eid,
                extent_version: 1,
                epoch: EpochId::new(0),
                replica_locations: vec![],
                checksums: vec![],
                operation_id: None,
                previous_version: None,
            },
        ),
    ];

    let resps = sm.apply(entries);
    assert_eq!(resps.len(), 2);

    let data = sm.data();
    assert!(data.get_volume_mappings(&vid).unwrap().contains_key(&0));
}

#[test]
fn test_state_machine_snapshot_roundtrip() {
    let mut sm = StateMachineStore::new();
    let vid = VolumeId::generate();
    let entry = make_normal(
        1,
        1,
        MetadataRequest::CreateVolume {
            volume_id: vid,
            size_bytes: 4096,
            protection: ProtectionPolicy::Replicated { replicas: 3 },
        },
    );
    sm.apply(vec![entry]);

    let meta = sm.build_snapshot(vec![1, 2, 3]);
    assert!(meta.last_log_id.is_some());
    assert_eq!(meta.snapshot_id, "T1-N1-1-1");

    let mut sm2 = StateMachineStore::new();
    let installed: Result<(), String> =
        sm2.install_snapshot(meta, Ok(sm.data().clone()), vec![1, 2, 3]);
    assert!(installed.is_ok());

    let data = sm2.data();
    assert!(data.get_volume(&vid).is_some());
    assert_eq!(data.last_applied.unwrap().index, 1);
}

#[test]
fn test_state_machine_get_snapshot() {
    let mut sm = StateMachineStore::new();
    assert!(sm.get_current_snapshot().is_none());

    sm.apply(vec![make_blank(1, 1)]);
    sm.build_snapshot(vec![9]);

    let snap = sm.get_current_snapshot();
    assert!(snap.is_some());
    assert_eq!(snap.unwrap().data, vec![9]);
}

#[test]
fn test_state_machine_membership_entry() {
    let mut sm = StateMachineStore::new();
    let members = Membership {
        configs: vec![vec![1]],
        nodes: vec![(1, String::new())],
    };

    let entry = make_entry(1, 1, EntryPayload::Membership(members.clone()));
    let resps = sm.apply(vec![entry]);
    assert!(!resps[0].is_error());
    let (_, stored) = sm.applied_state();
    assert_eq!(stored.membership, members);
    assert_eq!(stored.log_id, Some(LogId::new(1, 1, 1)));
}

#[test]
fn test_state_machine_query_data() {
    let mut sm = StateMachineStore::new();
    let vid = VolumeId::generate();
    let eid = ExtentId::generate();
    let op_id = OperationId::generate();

    let entries = vec![
        make_normal(
            1,
            1,
            MetadataRequest::CreateVolume {
                volume_id: vid,
                size_bytes: 1024,
                protection: ProtectionPolicy::Replicated { replicas: 1 },
            },
        ),
        make_normal(
            2,
            1,
            MetadataRequest::CommitExtentMapping {
                volume_id: vid,
                block_range: BlockRange::new(0, 64),
                extent_id: eid,
                extent_version: 7,
                epoch: EpochId::new(0),
                replica_locations: vec![],
                checksums: vec![],
                operation_id: Some(op_id),
                previous_version: None,
            },
        ),
    ];
    sm.apply(entries);

    let data = sm.data();
    assert!(data.lookup_by_operation_id(&op_id).is_some());
    assert!(data.lookup_by_extent_version(7).is_some());
}

#[test]
fn test_state_machine_snapshot_builder() {
    let mut sm = StateMachineStore::new();
    let meta = sm.build_snapshot(vec![]);
    assert!(meta.last_log_id.is_none());
    assert_eq!(meta.snapshot_id, "--1");
}

#[test]
fn test_log_store_empty_read() {
    let mut store = LogStore::new();
    let read = store.try_get_log_entries(1, 10);
    assert!(read.is_empty());
}
#[test]
fn replay_after_a_snapshot_gives_the_same_state() {
    let entries: Vec<Entry> = (1..=6)
        .map(|i| {
            let req = if i % 2 == 0 {
                MetadataRequest::AdvanceEpoch
            } else {
                MetadataRequest::CreateVolume {
                    volume_id: VolumeId::new(i as u128),
                    size_bytes: i,
                    protection: ProtectionPolicy::Replicated { replicas: 1 },
                }
            };
            make_normal(i, 1, req)
        })
        .collect();
    let mut whole = StateMachineStore::new();
    whole.apply(entries.clone());
    let mut first = StateMachineStore::new();
    first.apply(entries[..3].to_vec());
    let meta = first.build_snapshot(vec![]);
    let mut restored = StateMachineStore::new();
    let installed: Result<(), String> =
        restored.install_snapshot(meta, Ok(first.data().clone()), vec![]);
    assert!(installed.is_ok());
    restored.apply(entries[3..].to_vec());
    assert_eq!(restored.data().current_epoch(), whole.data().current_epoch());
    assert_eq!(restored.data().list_volumes().len(), 3);
    assert_eq!(whole.data().list_volumes().len(), 3);
    assert_eq!(restored.applied_state().0, whole.applied_state().0);
}

#[test]
fn a_snapshot_that_cannot_be_read_changes_nothing() {
    let mut source = StateMachineStore::new();
    source.apply(vec![make_normal(4, 2, MetadataRequest::AdvanceEpoch)]);
    let meta = source.build_snapshot(vec![1]);
    let mut target = StateMachineStore::new();
    target.apply(vec![make_blank(1, 1)]);
    let refused: Result<(), String> =
        target.install_snapshot(meta.clone(), Err("torn".to_string()), vec![2]);
    assert_eq!(refused, Err("torn".to_string()));
    assert_eq!(target.applied_state().0.unwrap().index, 1);
    assert_eq!(target.data().current_epoch(), EpochId::new(0));
    assert!(target.get_current_snapshot().is_none());
    let installed: Result<(), String> =
        target.install_snapshot(meta, Ok(source.data().clone()), vec![1]);
    assert_eq!(installed, Ok(()));
    assert_eq!(target.data().current_epoch(), EpochId::new(1));
    assert_eq!(target.applied_state().0, source.applied_state().0);
    let kept = target.get_current_snapshot().unwrap();
    assert_eq!(kept.data, source.get_current_snapshot().unwrap().data);
    assert_eq!(kept.meta.snapshot_id, "T2-N1-4-1");
}

#[test]
fn a_node_starts_again_from_what_was_kept() {
    let mut sm = StateMachineStore::new();
    sm.apply(vec![make_normal(1, 1, MetadataRequest::AdvanceEpoch)]);
    let membership = StoredMembership {
        log_id: None,
        membership: Membership {
            configs: vec![],
            nodes: vec![],
        },
    };
    let snapshot = StoredSnapshot {
        meta: SnapshotMeta {
            last_log_id: None,
            last_membership: membership.clone(),
            snapshot_id: "s".to_string(),
        },
        data: vec![],
    };
    let again = StateMachineStore::reopen(
        Some(sm.data().clone()),
        Some(Some(LogId::new(2, 2, 2))),
        Some(membership),
        Some(snapshot),
    );
    assert_eq!(again.data().current_epoch(), EpochId::new(1));
    assert_eq!(again.applied_state().0, Some(LogId::new(2, 2, 2)));
    assert!(again.get_current_snapshot().is_some());
    let fresh = StateMachineStore::reopen(None, None, None, None);
    assert_eq!(fresh.data().current_epoch(), EpochId::new(0));
    assert!(fresh.applied_state().0.is_none());
}

#[test]
fn later_entries_replace_earlier_ones() {
    let mut store = LogStore::new();
    store.append(vec![make_blank(1, 1), make_blank(2, 1)]);
    store.append(vec![make_blank(2, 7)]);
    let read = store.try_get_log_entries(2, 2);
    assert_eq!(read[0].log_id.term, 7);
    store.save_vote(&Vote::new(7, 1));
    assert_eq!(store.read_vote(), Some(Vote::new(7, 1)));
}
