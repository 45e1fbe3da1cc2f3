use blockyard::ids::{DiskId, ExtentId, OperationId};
use blockyard::storage::disk::DiskInventory;
use blockyard::storage::error::StorageError;
use blockyard::storage::extent::{
    CommittedFile, ExtentIndex, ExtentMeta, ExtentStore, LocalExtentEntry, MetaFile,
    RecoveryReport, StorageClass,
};
use blockyard::storage::failure::{
    check_dedup_after_crash, extents_needing_repair, handle_disk_failure, node_ready_for_reads,
    node_ready_for_writes, recover_node, validate_staged_not_durable, DedupCheckResult,
    DiskFailureReport, DiskRecovery, DiskRecoveryDetail, NodeRecoveryReport, OperationRecord,
};
use blockyard::types::DiskState;
use std::collections::BTreeMap;

fn setup_disk_dir() -> ((), String) {
    ((), "/mnt/disk".to_string())
}

/// Registers a new disk at each path.
fn discover(inventory: &mut DiskInventory, paths: &[String]) -> Result<Vec<DiskId>, StorageError> {
    paths
        .iter()
        .map(|path| inventory.register(DiskId::generate(), path, false))
        .collect()
}


fn make_index_entry(disk_id: DiskId, extent_id: ExtentId) -> LocalExtentEntry {
    LocalExtentEntry {
        extent_id,
        disk_id,
        path: "/test".to_string(),
        version: 1,
        checksum: "abc".into(),
        size: 100,
        storage_class: StorageClass::Default,
    }
}

#[test]
fn test_handle_disk_failure_basic() {
    let (_dir, path) = setup_disk_dir();
    let mut inventory = DiskInventory::new();
    let ids = discover(&mut inventory, &[path]).unwrap();
    let disk_id = ids[0];

    let mut index = ExtentIndex::new();
    let eid = ExtentId::generate();
    index.insert(make_index_entry(disk_id, eid)).unwrap();

    let report = handle_disk_failure(&mut inventory, &index, disk_id, "test failure").unwrap();

    assert_eq!(report.disk_id, disk_id);
    assert_eq!(report.previous_state, DiskState::Healthy);
    assert_eq!(report.affected_extents.len(), 1);
    assert_eq!(report.affected_extents[0], eid);
    assert_eq!(inventory.get_state(disk_id).unwrap(), DiskState::Failed);
}

#[test]
fn test_handle_disk_failure_already_failed() {
    let (_dir, path) = setup_disk_dir();
    let mut inventory = DiskInventory::new();
    let ids = discover(&mut inventory, &[path]).unwrap();
    let disk_id = ids[0];

    inventory
        .transition_state(disk_id, DiskState::Failed)
        .unwrap();

    let mut index = ExtentIndex::new();
    let report = handle_disk_failure(&mut inventory, &index, disk_id, "already failed").unwrap();

    assert_eq!(report.previous_state, DiskState::Failed);
    assert!(report.affected_extents.is_empty());
}

#[test]
fn test_handle_disk_failure_multiple_extents() {
    let (_dir, path) = setup_disk_dir();
    let mut inventory = DiskInventory::new();
    let ids = discover(&mut inventory, &[path]).unwrap();
    let disk_id = ids[0];

    let mut index = ExtentIndex::new();
    for _ in 0..5 {
        index
            .insert(make_index_entry(disk_id, ExtentId::generate()))
            .unwrap();
    }

    let report =
        handle_disk_failure(&mut inventory, &index, disk_id, "multi extent failure").unwrap();
    assert_eq!(report.affected_extents.len(), 5);
}

#[test]
fn test_check_dedup_previously_completed() {
    let mut log: BTreeMap<u128, OperationRecord> = BTreeMap::new();
    let op_id = OperationId::generate();
    let eid = ExtentId::generate();
    log.insert(
        op_id.value,
        OperationRecord {
            operation_id: op_id,
            extent_id: eid,
            extent_version: 5,
            disk_id: DiskId::generate(),
            checksum: "abc123".into(),
            success: true,
        },
    );

    let result = check_dedup_after_crash(&log, op_id);
    match result {
        DedupCheckResult::PreviouslyCompleted {
            extent_id,
            extent_version,
            checksum,
        } => {
            assert_eq!(extent_id, eid);
            assert_eq!(extent_version, 5);
            assert_eq!(checksum, "abc123");
        }
        _ => panic!("expected PreviouslyCompleted"),
    }
}

#[test]
fn test_check_dedup_previously_failed() {
    let mut log: BTreeMap<u128, OperationRecord> = BTreeMap::new();
    let op_id = OperationId::generate();
    log.insert(
        op_id.value,
        OperationRecord {
            operation_id: op_id,
            extent_id: ExtentId::generate(),
            extent_version: 1,
            disk_id: DiskId::generate(),
            checksum: String::new(),
            success: false,
        },
    );

    assert_eq!(
        check_dedup_after_crash(&log, op_id),
        DedupCheckResult::PreviouslyFailed
    );
}

#[test]
fn test_check_dedup_unknown() {
    let log: BTreeMap<u128, OperationRecord> = BTreeMap::new();
    let op_id = OperationId::generate();
    assert_eq!(
        check_dedup_after_crash(&log, op_id),
        DedupCheckResult::Unknown
    );
}

#[test]
fn test_validate_staged_not_durable_exists() {
    assert!(validate_staged_not_durable(true));
}

#[test]
fn test_validate_staged_not_durable_missing() {
    assert!(!validate_staged_not_durable(false));
}

#[test]
fn test_recover_node_basic() {
    let (_dir, path) = setup_disk_dir();
    let mut inventory = DiskInventory::new();
    let ids = discover(&mut inventory, &[path.clone()]).unwrap();
    let disk_id = ids[0];

    let store = ExtentStore::new(path, disk_id);
    let eid = ExtentId::generate();
    let data = b"committed data";
    let staged = store.stage_extent(eid, 1, data);
    let plan = store
        .commit_extent(
            eid,
            1,
            &staged.checksum,
            data.len() as u64,
            StorageClass::Default,
            0,
            true,
            false,
        )
        .unwrap();
    let entry = plan.entry;
    let meta = ExtentMeta {
        extent_id: eid,
        disk_id,
        version: 1,
        checksum: entry.checksum.clone(),
        size: entry.size,
        storage_class: entry.storage_class,
        committed_at: 0,
    };
    let name = entry.path.rsplit('/').next().unwrap().to_string();
    let files = vec![CommittedFile {
        path: entry.path,
        name,
        meta: MetaFile::Holds(meta),
    }];

    let mut index = ExtentIndex::new();
    let found = store.recover(&files, 1, &mut index);
    let outcomes = vec![(disk_id, DiskRecovery::Recovered(found))];
    let report = recover_node(&mut inventory, &outcomes);

    assert_eq!(report.disks_recovered, 1);
    assert_eq!(report.committed_extents, 1);
    assert_eq!(report.staged_discarded, 1);
    assert!(index.contains(eid));
}

#[test]
fn test_recover_node_no_stores() {
    let (_dir, path) = setup_disk_dir();
    let mut inventory = DiskInventory::new();
    let ids = discover(&mut inventory, &[path]).unwrap();

    let outcomes = vec![(ids[0], DiskRecovery::NoStore)];
    let report = recover_node(&mut inventory, &outcomes);
    assert_eq!(report.disks_recovered, 0);
    assert_eq!(report.recovery_errors, 1);
}

#[test]
fn test_extents_needing_repair() {
    let mut index = ExtentIndex::new();
    let disk_id = DiskId::generate();

    for _ in 0..3 {
        index
            .insert(make_index_entry(disk_id, ExtentId::generate()))
            .unwrap();
    }
    index
        .insert(make_index_entry(DiskId::generate(), ExtentId::generate()))
        .unwrap();

    let repair = extents_needing_repair(&index, disk_id);
    assert_eq!(repair.len(), 3);
}

#[test]
fn test_node_ready_for_writes() {
    let (_dir, path) = setup_disk_dir();
    let mut inventory = DiskInventory::new();
    discover(&mut inventory, &[path]).unwrap();
    let mut index = ExtentIndex::new();

    assert!(node_ready_for_writes(&inventory, &index));
}

#[test]
fn test_node_ready_for_writes_no_disks() {
    let mut inventory = DiskInventory::new();
    let mut index = ExtentIndex::new();
    assert!(!node_ready_for_writes(&inventory, &index));
}

#[test]
fn test_node_ready_for_writes_all_failed() {
    let (_dir, path) = setup_disk_dir();
    let mut inventory = DiskInventory::new();
    let ids = discover(&mut inventory, &[path]).unwrap();
    inventory
        .transition_state(ids[0], DiskState::Failed)
        .unwrap();
    let mut index = ExtentIndex::new();

    assert!(!node_ready_for_writes(&inventory, &index));
}

#[test]
fn test_node_ready_for_reads() {
    let (_dir, path) = setup_disk_dir();
    let mut inventory = DiskInventory::new();
    discover(&mut inventory, &[path]).unwrap();
    let mut index = ExtentIndex::new();

    assert!(node_ready_for_reads(&inventory, &index));
}

#[test]
fn test_node_ready_for_reads_draining_allowed() {
    let (_dir, path) = setup_disk_dir();
    let mut inventory = DiskInventory::new();
    let ids = discover(&mut inventory, &[path]).unwrap();
    inventory
        .transition_state(ids[0], DiskState::Draining)
        .unwrap();
    let mut index = ExtentIndex::new();

    assert!(node_ready_for_reads(&inventory, &index));
}

#[test]
fn test_node_ready_for_reads_all_failed() {
    let (_dir, path) = setup_disk_dir();
    let mut inventory = DiskInventory::new();
    let ids = discover(&mut inventory, &[path]).unwrap();
    inventory
        .transition_state(ids[0], DiskState::Failed)
        .unwrap();
    let mut index = ExtentIndex::new();

    assert!(!node_ready_for_reads(&inventory, &index));
}

#[test]
fn test_disk_failure_report_debug() {
    let r = DiskFailureReport {
        disk_id: DiskId::generate(),
        previous_state: DiskState::Healthy,
        affected_extents: vec![],
        reason: "test".into(),
    };
    let debug = format!("{:?}", r);
    assert!(debug.contains("DiskFailureReport"));
}

#[test]
fn test_disk_failure_report_clone() {
    let r = DiskFailureReport {
        disk_id: DiskId::generate(),
        previous_state: DiskState::Suspect,
        affected_extents: vec![ExtentId::generate()],
        reason: "clone test".into(),
    };
    let cloned = r.clone();
    assert_eq!(cloned.previous_state, DiskState::Suspect);
}

#[test]
fn test_node_recovery_report_default() {
    let r = NodeRecoveryReport::default();
    assert_eq!(r.disks_recovered, 0);
    assert_eq!(r.committed_extents, 0);
    assert_eq!(r.staged_discarded, 0);
    assert_eq!(r.recovery_errors, 0);
}

#[test]
fn test_disk_recovery_detail_debug() {
    let d = DiskRecoveryDetail {
        disk_id: DiskId::generate(),
        committed: 5,
        staged_discarded: 2,
        errors: 0,
    };
    let debug = format!("{:?}", d);
    assert!(debug.contains("DiskRecoveryDetail"));
}

#[test]
fn test_disk_recovery_detail_clone() {
    let d = DiskRecoveryDetail {
        disk_id: DiskId::generate(),
        committed: 10,
        staged_discarded: 3,
        errors: 1,
    };
    let cloned = d.clone();
    assert_eq!(cloned.committed, 10);
}

#[test]
fn test_dedup_check_result_debug() {
    let r = DedupCheckResult::Unknown;
    assert!(format!("{:?}", r).contains("Unknown"));
}

#[test]
fn test_dedup_check_result_eq() {
    assert_eq!(DedupCheckResult::Unknown, DedupCheckResult::Unknown);
    assert_eq!(
        DedupCheckResult::PreviouslyFailed,
        DedupCheckResult::PreviouslyFailed
    );
    assert_ne!(
        DedupCheckResult::Unknown,
        DedupCheckResult::PreviouslyFailed
    );
}

#[test]
fn test_dedup_check_result_clone() {
    let r = DedupCheckResult::PreviouslyCompleted {
        extent_id: ExtentId::generate(),
        extent_version: 42,
        checksum: "xyz".into(),
    };
    let cloned = r.clone();
    assert_eq!(r, cloned);
}

#[test]
fn test_recover_node_multiple_disks() {
    let (_d1, p1) = setup_disk_dir();
    let (_d2, p2) = setup_disk_dir();
    let mut inventory = DiskInventory::new();
    let ids = discover(&mut inventory, &[p1.clone(), p2.clone()]).unwrap();

    let mut index = ExtentIndex::new();
    let mut outcomes = Vec::new();
    for (i, &disk_id) in ids.iter().enumerate() {
        let path = if i == 0 { &p1 } else { &p2 };
        let store = ExtentStore::new(path.clone(), disk_id);
        let found = store.recover(&Vec::new(), 0, &mut index);
        outcomes.push((disk_id, DiskRecovery::Recovered(found)));
    }

    let report = recover_node(&mut inventory, &outcomes);
    assert_eq!(report.disks_recovered, 2);
}

#[test]
fn test_handle_disk_failure_from_suspect() {
    let (_dir, path) = setup_disk_dir();
    let mut inventory = DiskInventory::new();
    let ids = discover(&mut inventory, &[path]).unwrap();
    let disk_id = ids[0];
    inventory
        .transition_state(disk_id, DiskState::Suspect)
        .unwrap();

    let mut index = ExtentIndex::new();
    let report = handle_disk_failure(&mut inventory, &index, disk_id, "from suspect").unwrap();
    assert_eq!(report.previous_state, DiskState::Suspect);
    assert_eq!(inventory.get_state(disk_id).unwrap(), DiskState::Failed);
}
#[test]
fn a_disk_that_cannot_be_recovered_has_failed() {
    let mut inventory = DiskInventory::new();
    let ids = discover(&mut inventory, &["/a".to_string(), "/b".to_string()]).unwrap();
    let outcomes = vec![
        (
            ids[0],
            DiskRecovery::Recovered(RecoveryReport {
                committed_recovered: 3,
                staged_discarded: 2,
                errors: 1,
            }),
        ),
        (ids[1], DiskRecovery::Failed),
    ];
    let report = recover_node(&mut inventory, &outcomes);
    assert_eq!(report.disks_recovered, 1);
    assert_eq!(report.committed_extents, 3);
    assert_eq!(report.staged_discarded, 2);
    assert_eq!(report.recovery_errors, 2);
    assert_eq!(report.disk_reports.len(), 1);
    assert_eq!(inventory.get_state(ids[0]).unwrap(), DiskState::Healthy);
    assert_eq!(inventory.get_state(ids[1]).unwrap(), DiskState::Failed);
}

#[test]
fn a_node_that_takes_writes_serves_reads() {
    let states = [
        DiskState::Healthy,
        DiskState::Suspect,
        DiskState::Degraded,
        DiskState::Draining,
        DiskState::Failed,
    ];
    for state in states {
        let mut inventory = DiskInventory::new();
        let ids = discover(&mut inventory, &["/a".to_string()]).unwrap();
        if state != DiskState::Healthy {
            inventory.transition_state(ids[0], state).unwrap();
        }
        let index = ExtentIndex::new();
        if node_ready_for_writes(&inventory, &index) {
            assert!(node_ready_for_reads(&inventory, &index));
        }
    }
}

#[test]
fn the_failure_of_an_unknown_disk_is_refused() {
    let mut inventory = DiskInventory::new();
    let disk = DiskId::new(3);
    let err = handle_disk_failure(&mut inventory, &ExtentIndex::new(), disk, "x").unwrap_err();
    assert_eq!(
        err.to_text(),
        format!("disk not found: unknown disk: {}", disk.to_text())
    );
}
