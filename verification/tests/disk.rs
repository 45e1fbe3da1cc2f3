use blockyard::ids::{DiskId, NodeId};
use blockyard::storage::disk::{
    read_or_assign_disk_id, settle_identity, skips_xfs_check, validate_xfs, DiskInventory,
    DiskMetadata, FoundDisk, FsProbe, Identity, IdentityFile, MountProbe, QualificationState,
    DISK_ID_FILENAME,
};
use blockyard::storage::error::StorageError;
use blockyard::storage::health::DiskTelemetry;
use blockyard::types::DiskState;
use std::cell::{Cell, RefCell};
use std::rc::Rc;

/// A directory with a disk in it, which keeps what is written to it.
#[derive(Clone)]
struct FakeDir {
    probe: Rc<RefCell<MountProbe>>,
}

fn fake_dir(path: &str, is_dir: bool) -> FakeDir {
    FakeDir {
        probe: Rc::new(RefCell::new(MountProbe {
            path: path.to_string(),
            is_dir,
            check_off: false,
            marker: is_dir,
            fs: FsProbe::Detected("ext2/ext3".to_string()),
            identity: IdentityFile::Missing,
        })),
    }
}

fn setup_disk_dir() -> ((), FakeDir) {
    ((), fake_dir("/mnt/disk", true))
}

fn discover_for(
    inventory: &mut DiskInventory,
    dirs: &[FakeDir],
    require_qualification: bool,
    node_id: Option<NodeId>,
) -> Result<Vec<DiskId>, StorageError> {
    let mut mounts = Vec::new();
    for dir in dirs {
        let mut probe = dir.probe.borrow_mut();
        let id_path = probe.id_path();
        let found = match probe.identify(node_id) {
            Ok(identity) => {
                if let Identity::Assigned(metadata) = identity {
                    probe.identity = IdentityFile::Holds(metadata);
                }
                settle_identity(identity, &id_path, Ok(()))
            }
            Err(e) => Err(e),
        };
        mounts.push(FoundDisk {
            path: probe.path.clone(),
            found,
        });
    }
    inventory.discover_disks(mounts, require_qualification)
}

fn discover(
    inventory: &mut DiskInventory,
    dirs: &[FakeDir],
    require_qualification: bool,
) -> Result<Vec<DiskId>, StorageError> {
    discover_for(inventory, dirs, require_qualification, None)
}


#[test]
fn test_discover_single_disk() {
    let (_dir, path) = setup_disk_dir();
    let mut inventory = DiskInventory::new();
    let ids = discover(&mut inventory, &[path], false).unwrap();
    assert_eq!(ids.len(), 1);
}

#[test]
fn test_discover_recovers_existing_id() {
    let (_dir, path) = setup_disk_dir();

    let id1 = {
        let mut inventory = DiskInventory::new();
        let ids = discover(&mut inventory, &[path.clone()], false).unwrap();
        ids[0]
    };

    let id2 = {
        let mut inventory = DiskInventory::new();
        let ids = discover(&mut inventory, &[path], false).unwrap();
        ids[0]
    };

    assert_eq!(id1, id2);
}

#[test]
fn test_discover_nonexistent_path() {
    let mut inventory = DiskInventory::new();
    let result = discover(&mut inventory, &[fake_dir("/nonexistent/path", false)], false);
    assert!(result.is_err());
}

#[test]
fn test_discover_multiple_disks() {
    let (_d1, p1) = setup_disk_dir();
    let (_d2, p2) = setup_disk_dir();
    let mut inventory = DiskInventory::new();
    let ids = discover(&mut inventory, &[p1, p2], false).unwrap();
    assert_eq!(ids.len(), 2);
    assert_ne!(ids[0], ids[1]);
}

#[test]
fn test_duplicate_disk_rejected() {
    let (_dir, path) = setup_disk_dir();
    let mut inventory = DiskInventory::new();
    discover(&mut inventory, &[path.clone()], false).unwrap();
    let result = discover(&mut inventory, &[path], false);
    assert!(result.is_err());
}

#[test]
fn test_transition_state() {
    let (_dir, path) = setup_disk_dir();
    let mut inventory = DiskInventory::new();
    let ids = discover(&mut inventory, &[path], false).unwrap();
    let disk_id = ids[0];

    let old = inventory
        .transition_state(disk_id, DiskState::Suspect)
        .unwrap();
    assert_eq!(old, DiskState::Healthy);
    assert_eq!(inventory.get_state(disk_id).unwrap(), DiskState::Suspect);
}

#[test]
fn test_transition_state_illegal() {
    let (_dir, path) = setup_disk_dir();
    let mut inventory = DiskInventory::new();
    let ids = discover(&mut inventory, &[path], false).unwrap();
    let disk_id = ids[0];

    let result = inventory.transition_state(disk_id, DiskState::Removed);
    assert!(result.is_err());
}

#[test]
fn test_transition_state_unknown_disk() {
    let mut inventory = DiskInventory::new();
    let result = inventory.transition_state(DiskId::generate(), DiskState::Failed);
    assert!(result.is_err());
}

#[test]
fn test_allows_allocation_healthy() {
    let (_dir, path) = setup_disk_dir();
    let mut inventory = DiskInventory::new();
    let ids = discover(&mut inventory, &[path], false).unwrap();
    assert!(inventory.allows_allocation(ids[0]).unwrap());
}

#[test]
fn test_denies_allocation_degraded() {
    let (_dir, path) = setup_disk_dir();
    let mut inventory = DiskInventory::new();
    let ids = discover(&mut inventory, &[path], false).unwrap();
    let disk_id = ids[0];

    inventory
        .transition_state(disk_id, DiskState::Degraded)
        .unwrap();
    assert!(!inventory.allows_allocation(disk_id).unwrap());
}

#[test]
fn test_denies_allocation_draining() {
    let (_dir, path) = setup_disk_dir();
    let mut inventory = DiskInventory::new();
    let ids = discover(&mut inventory, &[path], false).unwrap();
    let disk_id = ids[0];

    inventory
        .transition_state(disk_id, DiskState::Draining)
        .unwrap();
    assert!(!inventory.allows_allocation(disk_id).unwrap());
}

#[test]
fn test_denies_allocation_failed() {
    let (_dir, path) = setup_disk_dir();
    let mut inventory = DiskInventory::new();
    let ids = discover(&mut inventory, &[path], false).unwrap();
    let disk_id = ids[0];

    inventory
        .transition_state(disk_id, DiskState::Failed)
        .unwrap();
    assert!(!inventory.allows_allocation(disk_id).unwrap());
}

#[test]
fn test_denies_allocation_removed() {
    let (_dir, path) = setup_disk_dir();
    let mut inventory = DiskInventory::new();
    let ids = discover(&mut inventory, &[path], false).unwrap();
    let disk_id = ids[0];

    inventory
        .transition_state(disk_id, DiskState::Failed)
        .unwrap();
    inventory
        .transition_state(disk_id, DiskState::Removed)
        .unwrap();
    assert!(!inventory.allows_allocation(disk_id).unwrap());
}

#[test]
fn test_allows_reads_healthy() {
    let (_dir, path) = setup_disk_dir();
    let mut inventory = DiskInventory::new();
    let ids = discover(&mut inventory, &[path], false).unwrap();
    assert!(inventory.allows_reads(ids[0]).unwrap());
}

#[test]
fn test_denies_reads_failed() {
    let (_dir, path) = setup_disk_dir();
    let mut inventory = DiskInventory::new();
    let ids = discover(&mut inventory, &[path], false).unwrap();
    let disk_id = ids[0];

    inventory
        .transition_state(disk_id, DiskState::Failed)
        .unwrap();
    assert!(!inventory.allows_reads(disk_id).unwrap());
}

#[test]
fn test_allows_reads_draining() {
    let (_dir, path) = setup_disk_dir();
    let mut inventory = DiskInventory::new();
    let ids = discover(&mut inventory, &[path], false).unwrap();
    let disk_id = ids[0];

    inventory
        .transition_state(disk_id, DiskState::Draining)
        .unwrap();
    assert!(inventory.allows_reads(disk_id).unwrap());
}

#[test]
fn test_list_disks() {
    let (_d1, p1) = setup_disk_dir();
    let (_d2, p2) = setup_disk_dir();
    let mut inventory = DiskInventory::new();
    discover(&mut inventory, &[p1, p2], false).unwrap();
    assert_eq!(inventory.list_disks().len(), 2);
}

#[test]
fn test_get_mount_path() {
    let (_dir, path) = setup_disk_dir();
    let mut inventory = DiskInventory::new();
    let ids = discover(&mut inventory, &[path.clone()], false).unwrap();
    assert_eq!(inventory.get_mount_path(ids[0]).unwrap(), path.probe.borrow().path);
}

#[test]
fn test_get_mount_path_unknown() {
    let mut inventory = DiskInventory::new();
    assert!(inventory.get_mount_path(DiskId::generate()).is_err());
}

#[test]
fn test_qualification_pending_denies_allocation() {
    let (_dir, path) = setup_disk_dir();
    let mut inventory = DiskInventory::new();
    let ids = discover(&mut inventory, &[path], true).unwrap();
    let disk_id = ids[0];

    assert!(!inventory.allows_allocation(disk_id).unwrap());
    assert_eq!(
        inventory.get_qualification(disk_id).unwrap(),
        QualificationState::Pending
    );
}

#[test]
fn test_qualification_complete_allows_allocation() {
    let (_dir, path) = setup_disk_dir();
    let mut inventory = DiskInventory::new();
    let ids = discover(&mut inventory, &[path], true).unwrap();
    let disk_id = ids[0];

    inventory.complete_qualification(disk_id).unwrap();
    assert!(inventory.allows_allocation(disk_id).unwrap());
    assert_eq!(inventory.get_state(disk_id).unwrap(), DiskState::Healthy);
}

#[test]
fn test_burn_in_start() {
    let (_dir, path) = setup_disk_dir();
    let mut inventory = DiskInventory::new();
    let ids = discover(&mut inventory, &[path], true).unwrap();
    let disk_id = ids[0];

    inventory.start_burn_in(disk_id, 5).unwrap();
    let q = inventory.get_qualification(disk_id).unwrap();
    assert!(matches!(q, QualificationState::BurnInRunning { .. }));
}

#[test]
fn test_burn_in_already_qualified() {
    let (_dir, path) = setup_disk_dir();
    let mut inventory = DiskInventory::new();
    let ids = discover(&mut inventory, &[path], false).unwrap();
    let disk_id = ids[0];

    let result = inventory.start_burn_in(disk_id, 5);
    assert!(result.is_err());
}

#[test]
fn test_complete_qualification_already_qualified() {
    let (_dir, path) = setup_disk_dir();
    let mut inventory = DiskInventory::new();
    let ids = discover(&mut inventory, &[path], false).unwrap();
    let disk_id = ids[0];

    assert!(inventory.complete_qualification(disk_id).is_ok());
}

#[test]
fn test_bad_region_report_and_check() {
    let (_dir, path) = setup_disk_dir();
    let mut inventory = DiskInventory::new();
    let ids = discover(&mut inventory, &[path], false).unwrap();
    let disk_id = ids[0];

    assert!(!inventory.is_region_quarantined(disk_id, 100, 50).unwrap());

    inventory.report_bad_region(disk_id, 100, 50).unwrap();

    assert!(inventory.is_region_quarantined(disk_id, 120, 10).unwrap());
    assert!(!inventory.is_region_quarantined(disk_id, 200, 10).unwrap());
}

#[test]
fn test_bad_region_unknown_disk() {
    let mut inventory = DiskInventory::new();
    assert!(
        inventory
            .report_bad_region(DiskId::generate(), 0, 100)
            .is_err()
    );
}

#[test]
fn test_record_telemetry() {
    let (_dir, path) = setup_disk_dir();
    let mut inventory = DiskInventory::new();
    let ids = discover(&mut inventory, &[path], false).unwrap();
    let disk_id = ids[0];

    let tel = DiskTelemetry {
        read_errors: 0,
        write_errors: 0,
        checksum_mismatches: 0,
        media_errors: 0,
        timeouts: 0,
        temperature_celsius: Some(35),
        latency_p99_us: Some(500),
    };
    assert!(inventory.record_telemetry(disk_id, &tel).is_ok());
}

#[test]
fn test_record_telemetry_triggers_degraded() {
    let (_dir, path) = setup_disk_dir();
    let mut inventory = DiskInventory::new();
    let ids = discover(&mut inventory, &[path], false).unwrap();
    let disk_id = ids[0];

    let tel = DiskTelemetry {
        read_errors: 100,
        write_errors: 100,
        checksum_mismatches: 50,
        media_errors: 20,
        timeouts: 0,
        temperature_celsius: None,
        latency_p99_us: None,
    };
    inventory.record_telemetry(disk_id, &tel).unwrap();

    let state = inventory.get_state(disk_id).unwrap();
    assert!(
        state == DiskState::Suspect
            || state == DiskState::Degraded
            || state == DiskState::Failed
    );
}

#[test]
fn test_record_telemetry_unknown_disk() {
    let mut inventory = DiskInventory::new();
    let tel = DiskTelemetry::default();
    assert!(
        inventory
            .record_telemetry(DiskId::generate(), &tel)
            .is_err()
    );
}

#[test]
fn test_validate_xfs_marker_file() {
    assert!(validate_xfs("/mnt/disk", false, true, &FsProbe::Undetermined).is_ok());
}

#[test]
fn test_validate_xfs_rejects_non_xfs_without_marker() {
    let result = validate_xfs("/mnt/disk", false, false, &FsProbe::Undetermined);
    assert!(result.is_err(), "should reject directory without XFS or marker");
    let err = result.unwrap_err().to_text();
    assert!(
        err.contains("XFS") || err.contains("xfs"),
        "error should mention XFS: {err}"
    );
}

#[test]
fn test_validate_xfs_skip_env_var() {
    let off = skips_xfs_check(Some("1"));
    let result = validate_xfs("/mnt/disk", off, false, &FsProbe::Undetermined);
    assert!(result.is_ok(), "should accept when env var is set");
}

#[test]
fn test_validate_xfs_env_var_not_1_still_validates() {
    let off = skips_xfs_check(Some("0"));
    let result = validate_xfs("/mnt/disk", off, false, &FsProbe::Undetermined);
    assert!(result.is_err(), "env var value '0' should not skip validation");
}

#[test]
fn test_read_or_assign_disk_id_new() {
    let assigned = read_or_assign_disk_id("/mnt/disk/id", &IdentityFile::Missing, None).unwrap();
    let metadata = match assigned {
        Identity::Assigned(metadata) => metadata,
        Identity::Known(id) => panic!("the disk {id:?} cannot be known"),
    };

    let file = IdentityFile::Holds(metadata);
    let id2 = read_or_assign_disk_id("/mnt/disk/id", &file, None).unwrap();
    assert_eq!(id2, Identity::Known(metadata.disk_id));
}

#[test]
fn test_read_disk_id_corrupt() {
    let file = IdentityFile::Corrupt("expected ident at line 1 column 2".to_string());
    assert!(read_or_assign_disk_id("/mnt/disk/id", &file, None).is_err());
}

#[test]
fn test_read_or_assign_disk_id_sets_node_id() {
    let nid = NodeId::generate();
    match read_or_assign_disk_id("/mnt/disk/id", &IdentityFile::Missing, Some(nid)).unwrap() {
        Identity::Assigned(meta) => assert_eq!(meta.node_id, Some(nid)),
        Identity::Known(id) => panic!("the disk {id:?} cannot be known"),
    }
}

#[test]
fn test_discover_disks_for_node_binds_node_id() {
    let (_dir, path) = setup_disk_dir();
    let nid = NodeId::generate();
    let mut inventory = DiskInventory::new();
    let ids = discover_for(&mut inventory, &[path.clone()], false, Some(nid)).unwrap();
    assert_eq!(ids.len(), 1);

    let meta = match &path.probe.borrow().identity {
        IdentityFile::Holds(meta) => *meta,
        other => panic!("no identity was written: {other:?}"),
    };
    assert_eq!(meta.node_id, Some(nid));
    assert_eq!(meta.disk_id, ids[0]);
}

#[test]
fn test_default_inventory() {
    let mut inventory = DiskInventory::default();
    assert!(inventory.list_disks().is_empty());
}
fn probe(is_dir: bool, marker: bool, fs: FsProbe, identity: IdentityFile) -> MountProbe {
    MountProbe {
        path: "/mnt/d1".to_string(),
        is_dir,
        check_off: false,
        marker,
        fs,
        identity,
    }
}

#[test]
fn every_refusal_of_a_mount_path_says_why() {
    let xfs = FsProbe::Detected("xfs".to_string());
    let hint =
        "Use .blockyard_xfs_ok marker file or BLOCKYARD_SKIP_XFS_CHECK=1 to override.";
    let refusal = |p: MountProbe| p.identify(None).unwrap_err().to_text();
    assert_eq!(
        refusal(probe(false, true, xfs.clone(), IdentityFile::Missing)),
        "disk not found: mount path does not exist or is not a directory: /mnt/d1"
    );
    assert_eq!(
        refusal(probe(true, false, FsProbe::NoStat("denied".to_string()), IdentityFile::Missing)),
        "XFS validation failed: cannot stat /mnt/d1: denied"
    );
    assert_eq!(
        refusal(probe(true, false, FsProbe::Detected("zfs".to_string()), IdentityFile::Missing)),
        format!("XFS validation failed: /mnt/d1 is not an XFS filesystem (detected: 'zfs'). {hint}")
    );
    assert_eq!(
        refusal(probe(true, false, FsProbe::Undetermined, IdentityFile::Missing)),
        format!("XFS validation failed: could not determine filesystem type for /mnt/d1. {hint}")
    );
    assert_eq!(
        refusal(probe(true, false, xfs.clone(), IdentityFile::Unreadable("eio".to_string()))),
        format!("disk identity error: failed to read disk ID from /mnt/d1/{DISK_ID_FILENAME}: eio")
    );
    assert_eq!(
        refusal(probe(true, false, xfs.clone(), IdentityFile::Corrupt("eof".to_string()))),
        format!("disk identity error: corrupt disk ID file at /mnt/d1/{DISK_ID_FILENAME}: eof")
    );
    let identity = probe(true, false, xfs, IdentityFile::Missing).identify(None).unwrap();
    let refused = settle_identity(identity, "/mnt/d1/id", Err("full".to_string()));
    assert_eq!(
        refused.unwrap_err().to_text(),
        "disk identity error: failed to write disk ID to /mnt/d1/id: full"
    );
}

#[test]
fn discovery_stops_at_the_first_refusal() {
    let mut inventory = DiskInventory::new();
    let at = |path: &str, id: u128| FoundDisk {
        path: path.to_string(),
        found: Ok(DiskId::new(id)),
    };
    let err = inventory
        .discover_disks(vec![at("/a", 1), at("/b", 2), at("/c", 1), at("/d", 3)], false)
        .unwrap_err();
    assert_eq!(
        err.to_text(),
        format!("duplicate disk: disk {} already registered", DiskId::new(1).to_text())
    );
    assert_eq!(inventory.list_disks(), vec![DiskId::new(1), DiskId::new(2)]);
    assert_eq!(inventory.get_mount_path(DiskId::new(1)).unwrap(), "/a");
}

#[test]
fn qualification_is_needed_before_allocation() {
    let mut inventory = DiskInventory::new();
    let id = inventory.register(DiskId::new(1), "/a", true).unwrap();
    let calls = Cell::new(0);
    let check = |inventory: &DiskInventory, expected: bool| {
        calls.set(calls.get() + 1);
        assert_eq!(inventory.allows_allocation(id).unwrap(), expected);
    };
    check(&inventory, false);
    inventory.start_burn_in(id, 17).unwrap();
    assert_eq!(
        inventory.get_qualification(id).unwrap(),
        QualificationState::BurnInRunning { started_at_ms: 17 }
    );
    check(&inventory, false);
    inventory.complete_qualification(id).unwrap();
    check(&inventory, true);
    assert_eq!(calls.get(), 3);
}

#[test]
fn a_disk_keeps_its_metadata() {
    let metadata = DiskMetadata {
        disk_id: DiskId::new(5),
        node_id: Some(NodeId::new(6)),
    };
    let file = IdentityFile::Holds(metadata);
    assert_eq!(
        read_or_assign_disk_id("/x", &file, None).unwrap(),
        Identity::Known(DiskId::new(5))
    );
}

#[test]
fn a_disk_bound_to_another_node_cannot_be_claimed() {
    let (_dir, path) = setup_disk_dir();
    let ours = NodeId::new(1);
    let theirs = NodeId::new(2);
    let mut first = DiskInventory::new();
    let ids = discover_for(&mut first, &[path.clone()], false, Some(theirs)).unwrap();

    let mut second = DiskInventory::new();
    let refused = discover_for(&mut second, &[path.clone()], false, Some(ours)).unwrap_err();
    assert!(matches!(refused, StorageError::DiskIdentity(_)));
    assert_eq!(
        refused.to_text(),
        format!(
            "disk identity error: disk ID file at /mnt/disk/.blockyard_disk_id is bound to node \
             {}, not {}",
            theirs.to_text(),
            ours.to_text()
        )
    );
    assert!(second.list_disks().is_empty());
    match &path.probe.borrow().identity {
        IdentityFile::Holds(metadata) => {
            assert_eq!(metadata.disk_id, ids[0]);
            assert_eq!(metadata.node_id, Some(theirs));
        }
        other => panic!("the identity is gone: {other:?}"),
    }

    let again = discover_for(&mut DiskInventory::new(), &[path.clone()], false, Some(theirs));
    assert_eq!(again.unwrap(), ids);
    let unasked = discover(&mut DiskInventory::new(), &[path], false);
    assert_eq!(unasked.unwrap(), ids);
    let unbound = IdentityFile::Holds(DiskMetadata {
        disk_id: DiskId::new(5),
        node_id: None,
    });
    assert_eq!(
        read_or_assign_disk_id("/x", &unbound, Some(ours)).unwrap(),
        Identity::Known(DiskId::new(5))
    );
}

#[test]
fn a_mount_path_may_end_in_a_slash() {
    let dir = fake_dir("/mnt/disk/", true);
    assert_eq!(
        dir.probe.borrow().id_path(),
        "/mnt/disk/.blockyard_disk_id"
    );
    let plain = fake_dir("/mnt/disk", true);
    assert_eq!(dir.probe.borrow().id_path(), plain.probe.borrow().id_path());
}
