use blockyard::ids::{DiskId, ExtentId};
use blockyard::storage::error::StorageError;
use blockyard::storage::extent::{
    committed_extent_path, compute_checksum, extent_meta_path, file_failure, join_path,
    recover_extent_from_file, rename_failure, staged_extent_path, sync_dir_failure,
    verify_checksum, CommitAction, CommittedFile, ExtentIndex, ExtentMeta, ExtentStore,
    FilePurpose, FileStep, LocalExtentEntry, MetaFile, RecoveryReport, StagedFile, StorageClass,
};
use std::cell::RefCell;
use std::collections::BTreeMap;

/// A disk in memory that carries out what the store plans.
struct FakeDisk {
    store: ExtentStore,
    dirs: RefCell<Vec<String>>,
    files: RefCell<BTreeMap<String, Vec<u8>>>,
    metas: RefCell<BTreeMap<String, ExtentMeta>>,
}

impl FakeDisk {
    fn new(mount: &str, disk_id: DiskId) -> Self {
        Self {
            store: ExtentStore::new(mount.to_string(), disk_id),
            dirs: RefCell::new(Vec::new()),
            files: RefCell::new(BTreeMap::new()),
            metas: RefCell::new(BTreeMap::new()),
        }
    }

    fn init_directories(&self) {
        let (staged, committed) = self.store.directories();
        self.dirs.borrow_mut().push(staged);
        self.dirs.borrow_mut().push(committed);
    }

    fn holds(&self, path: &str) -> bool {
        self.files.borrow().contains_key(path) || self.metas.borrow().contains_key(path)
    }

    fn mount_path(&self) -> &str {
        self.store.mount_path()
    }

    fn stage_extent(
        &self,
        extent_id: ExtentId,
        version: u64,
        data: &[u8],
    ) -> Result<(String, String), StorageError> {
        let plan = self.store.stage_extent(extent_id, version, data);
        assert!(self.dirs.borrow().contains(&plan.dir));
        self.files.borrow_mut().insert(plan.path.clone(), data.to_vec());
        Ok((plan.path, plan.checksum))
    }

    fn commit_extent(
        &self,
        extent_id: ExtentId,
        version: u64,
        checksum: &str,
        size: u64,
        storage_class: StorageClass,
    ) -> Result<LocalExtentEntry, StorageError> {
        let staged = staged_extent_path(self.mount_path(), extent_id, version);
        let committed = committed_extent_path(self.mount_path(), extent_id, version);
        let plan = self.store.commit_extent(
            extent_id,
            version,
            checksum,
            size,
            storage_class,
            1000,
            self.holds(&staged),
            self.holds(&committed),
        )?;
        for action in &plan.actions {
            match action {
                CommitAction::CreateDir { path } => self.dirs.borrow_mut().push(path.clone()),
                CommitAction::WriteMeta { path, meta } => {
                    assert!(!self.holds(&committed), "metadata comes before the rename");
                    self.metas.borrow_mut().insert(path.clone(), meta.clone());
                }
                CommitAction::Promote { from, to } => {
                    let data = self.files.borrow_mut().remove(from).unwrap();
                    self.files.borrow_mut().insert(to.clone(), data);
                }
                CommitAction::SyncDir { path } => assert!(self.dirs.borrow().contains(path)),
            }
        }
        Ok(plan.entry)
    }

    fn read_extent(
        &self,
        extent_id: ExtentId,
        version: u64,
    ) -> Result<(Vec<u8>, String), StorageError> {
        let path = committed_extent_path(self.mount_path(), extent_id, version);
        let meta = extent_meta_path(self.mount_path(), extent_id, version);
        let data = self.files.borrow().get(&path).cloned();
        let recorded = self.metas.borrow().get(&meta).map(|m| m.checksum.clone());
        self.store.read_extent(extent_id, version, data, recorded)
    }

    fn extent_exists(&self, extent_id: ExtentId, version: u64) -> bool {
        self.holds(&committed_extent_path(self.mount_path(), extent_id, version))
    }

    fn cleanup_orphaned_staged(&self, retention_secs: u64) -> Result<Vec<String>, StorageError> {
        let staged: Vec<StagedFile> = self
            .files
            .borrow()
            .keys()
            .filter(|p| p.ends_with(".staging"))
            .map(|p| StagedFile {
                path: p.clone(),
                is_file: true,
                age_secs: Some(0),
            })
            .collect();
        let cleaned = self.store.cleanup_orphaned_staged(&staged, retention_secs);
        for path in &cleaned {
            self.files.borrow_mut().remove(path);
        }
        Ok(cleaned)
    }

    fn recover(&self, index: &mut ExtentIndex) -> Result<RecoveryReport, StorageError> {
        let discarded = self.cleanup_orphaned_staged(0)?.len();
        let files: Vec<CommittedFile> = self
            .files
            .borrow()
            .keys()
            .map(|p| CommittedFile {
                path: p.clone(),
                name: p.rsplit('/').next().unwrap().to_string(),
                meta: match self.metas.borrow().get(&format!("{p}.meta")) {
                    Some(meta) => MetaFile::Holds(meta.clone()),
                    None => MetaFile::Missing,
                },
            })
            .collect();
        Ok(self.store.recover(&files, discarded, index))
    }
}

fn setup_disk() -> ((), FakeDisk) {
    let disk = FakeDisk::new("/mnt/disk0", DiskId::generate());
    disk.init_directories();
    ((), disk)
}


#[test]
fn test_committed_extent_path_format() {
    let eid = ExtentId::generate();
    let path = committed_extent_path("/mnt/disk0", eid, 1);
    let id_str = eid.to_text();
    let prefix = &id_str[..8];
    assert!(path.contains(prefix));
    assert!(path.contains("_v1"));
    assert!(path.contains("committed"));
}

#[test]
fn test_staged_extent_path_format() {
    let eid = ExtentId::generate();
    let path = staged_extent_path("/mnt/disk0", eid, 1);
    assert!(path.contains("staged"));
    assert!(path.contains(".staging"));
}

#[test]
fn test_extent_meta_path_format() {
    let eid = ExtentId::generate();
    let path = extent_meta_path("/mnt/disk0", eid, 1);
    assert!(path.contains(".meta"));
}

#[test]
fn test_compute_checksum_deterministic() {
    let data = b"hello world";
    let c1 = compute_checksum(data);
    let c2 = compute_checksum(data);
    assert_eq!(c1, c2);
}

#[test]
fn test_compute_checksum_different_data() {
    assert_ne!(compute_checksum(b"hello"), compute_checksum(b"world"));
}

#[test]
fn test_verify_checksum_valid() {
    let data = b"test data";
    let checksum = compute_checksum(data);
    assert!(verify_checksum(data, &checksum));
}

#[test]
fn test_verify_checksum_invalid() {
    assert!(!verify_checksum(b"test", "badchecksum"));
}

#[test]
fn test_stage_extent() {
    let (_dir, store) = setup_disk();
    let eid = ExtentId::generate();
    let data = b"extent payload data";
    let (path, checksum) = store.stage_extent(eid, 1, data).unwrap();
    assert!(store.holds(&path));
    assert!(!checksum.is_empty());
    let contents = store.files.borrow()[&path].clone();
    assert_eq!(contents, data);
}

#[test]
fn test_commit_extent() {
    let (_dir, store) = setup_disk();
    let eid = ExtentId::generate();
    let data = b"commit me";

    let (_staged_path, checksum) = store.stage_extent(eid, 1, data).unwrap();
    let entry = store
        .commit_extent(eid, 1, &checksum, data.len() as u64, StorageClass::Default)
        .unwrap();

    assert_eq!(entry.extent_id, eid);
    assert_eq!(entry.version, 1);
    assert!(store.holds(&entry.path));
    assert!(!store.holds(&staged_extent_path(store.mount_path(), eid, 1)));
}

#[test]
fn test_commit_without_staging_fails() {
    let (_dir, store) = setup_disk();
    let eid = ExtentId::generate();
    let result = store.commit_extent(eid, 1, "fake", 100, StorageClass::Default);
    assert!(result.is_err());
}

#[test]
fn test_immutability_double_commit() {
    let (_dir, store) = setup_disk();
    let eid = ExtentId::generate();
    let data = b"payload";

    let (_, checksum) = store.stage_extent(eid, 1, data).unwrap();
    store
        .commit_extent(eid, 1, &checksum, data.len() as u64, StorageClass::Default)
        .unwrap();

    let (_, checksum2) = store.stage_extent(eid, 1, data).unwrap();
    let result =
        store.commit_extent(eid, 1, &checksum2, data.len() as u64, StorageClass::Default);
    assert!(result.is_err());
}

#[test]
fn test_read_committed_extent() {
    let (_dir, store) = setup_disk();
    let eid = ExtentId::generate();
    let data = b"readable data";

    let (_, checksum) = store.stage_extent(eid, 1, data).unwrap();
    store
        .commit_extent(eid, 1, &checksum, data.len() as u64, StorageClass::Default)
        .unwrap();

    let (read_data, read_checksum) = store.read_extent(eid, 1).unwrap();
    assert_eq!(read_data, data.to_vec());
    assert_eq!(read_checksum, checksum);
}

#[test]
fn test_read_nonexistent_extent() {
    let (_dir, store) = setup_disk();
    let result = store.read_extent(ExtentId::generate(), 1);
    assert!(result.is_err());
}

#[test]
fn test_read_detects_corruption() {
    let (_dir, store) = setup_disk();
    let eid = ExtentId::generate();
    let data = b"original";

    let (_, checksum) = store.stage_extent(eid, 1, data).unwrap();
    store
        .commit_extent(eid, 1, &checksum, data.len() as u64, StorageClass::Default)
        .unwrap();

    let committed_path = committed_extent_path(store.mount_path(), eid, 1);
    store.files.borrow_mut().insert(committed_path, b"corrupted".to_vec());

    let result = store.read_extent(eid, 1);
    assert!(result.is_err());
}

#[test]
fn test_extent_exists() {
    let (_dir, store) = setup_disk();
    let eid = ExtentId::generate();
    assert!(!store.extent_exists(eid, 1));

    let data = b"data";
    let (_, checksum) = store.stage_extent(eid, 1, data).unwrap();
    store
        .commit_extent(eid, 1, &checksum, data.len() as u64, StorageClass::Default)
        .unwrap();
    assert!(store.extent_exists(eid, 1));
}

#[test]
fn test_cleanup_orphaned_staged() {
    let (_dir, store) = setup_disk();
    let eid = ExtentId::generate();

    store.stage_extent(eid, 1, b"orphan").unwrap();

    let cleaned = store.cleanup_orphaned_staged(0).unwrap();
    assert_eq!(cleaned.len(), 1);

    assert!(!store.holds(&staged_extent_path(store.mount_path(), eid, 1)));
}

#[test]
fn test_cleanup_respects_retention() {
    let (_dir, store) = setup_disk();
    let eid = ExtentId::generate();

    store.stage_extent(eid, 1, b"recent").unwrap();

    let cleaned = store.cleanup_orphaned_staged(3600).unwrap();
    assert!(cleaned.is_empty());
}

#[test]
fn test_recover_committed_extents() {
    let (_dir, store) = setup_disk();
    let mut _index = ExtentIndex::new();

    let eid1 = ExtentId::generate();
    let eid2 = ExtentId::generate();
    let data = b"recovery test";

    let (_, c1) = store.stage_extent(eid1, 1, data).unwrap();
    store
        .commit_extent(eid1, 1, &c1, data.len() as u64, StorageClass::Default)
        .unwrap();

    let (_, c2) = store.stage_extent(eid2, 1, data).unwrap();
    store
        .commit_extent(eid2, 1, &c2, data.len() as u64, StorageClass::Default)
        .unwrap();

    store
        .stage_extent(ExtentId::generate(), 1, b"orphan")
        .unwrap();

    let mut new_index = ExtentIndex::new();
    let report = store.recover(&mut new_index).unwrap();

    assert_eq!(report.committed_recovered, 2);
    assert_eq!(report.staged_discarded, 1);
    assert_eq!(new_index.count(), 2);
}

#[test]
fn test_recover_empty_disk() {
    let (_dir, store) = setup_disk();
    let mut index = ExtentIndex::new();
    let report = store.recover(&mut index).unwrap();
    assert_eq!(report.committed_recovered, 0);
    assert_eq!(report.staged_discarded, 0);
}

#[test]
fn test_extent_index_insert_get() {
    let mut index = ExtentIndex::new();
    let eid = ExtentId::generate();
    let entry = LocalExtentEntry {
        extent_id: eid,
        disk_id: DiskId::generate(),
        path: "/mnt/disk0/committed/test".to_string(),
        version: 1,
        checksum: "abc123".into(),
        size: 100,
        storage_class: StorageClass::Default,
    };

    index.insert(entry).unwrap();
    assert!(index.contains(eid));

    let got = index.get(eid).unwrap();
    assert_eq!(got.version, 1);
}

#[test]
fn test_extent_index_duplicate_insert() {
    let mut index = ExtentIndex::new();
    let eid = ExtentId::generate();
    let entry = LocalExtentEntry {
        extent_id: eid,
        disk_id: DiskId::generate(),
        path: "/test".to_string(),
        version: 1,
        checksum: "abc".into(),
        size: 0,
        storage_class: StorageClass::Default,
    };

    index.insert(entry.clone()).unwrap();
    assert!(index.insert(entry).is_err());
}

#[test]
fn test_extent_index_remove() {
    let mut index = ExtentIndex::new();
    let eid = ExtentId::generate();
    let entry = LocalExtentEntry {
        extent_id: eid,
        disk_id: DiskId::generate(),
        path: "/test".to_string(),
        version: 1,
        checksum: "abc".into(),
        size: 0,
        storage_class: StorageClass::Default,
    };

    index.insert(entry).unwrap();
    let removed = index.remove(eid);
    assert!(removed.is_some());
    assert!(!index.contains(eid));
}

#[test]
fn test_extent_index_get_nonexistent() {
    let mut index = ExtentIndex::new();
    assert!(index.get(ExtentId::generate()).is_none());
}

#[test]
fn test_extent_index_count() {
    let mut index = ExtentIndex::new();
    assert_eq!(index.count(), 0);

    let entry = LocalExtentEntry {
        extent_id: ExtentId::generate(),
        disk_id: DiskId::generate(),
        path: "/test".to_string(),
        version: 1,
        checksum: "abc".into(),
        size: 0,
        storage_class: StorageClass::Default,
    };
    index.insert(entry).unwrap();
    assert_eq!(index.count(), 1);
}

#[test]
fn test_extent_index_list_for_disk() {
    let mut index = ExtentIndex::new();
    let disk1 = DiskId::generate();
    let disk2 = DiskId::generate();

    for _ in 0..3 {
        index
            .insert(LocalExtentEntry {
                extent_id: ExtentId::generate(),
                disk_id: disk1,
                path: "/test".to_string(),
                version: 1,
                checksum: "abc".into(),
                size: 0,
                storage_class: StorageClass::Default,
            })
            .unwrap();
    }
    index
        .insert(LocalExtentEntry {
            extent_id: ExtentId::generate(),
            disk_id: disk2,
            path: "/test2".to_string(),
            version: 1,
            checksum: "def".into(),
            size: 0,
            storage_class: StorageClass::Default,
        })
        .unwrap();

    assert_eq!(index.list_for_disk(disk1).len(), 3);
    assert_eq!(index.list_for_disk(disk2).len(), 1);
}

#[test]
fn test_extent_index_list_all() {
    let mut index = ExtentIndex::new();
    for _ in 0..5 {
        index
            .insert(LocalExtentEntry {
                extent_id: ExtentId::generate(),
                disk_id: DiskId::generate(),
                path: "/test".to_string(),
                version: 1,
                checksum: "abc".into(),
                size: 0,
                storage_class: StorageClass::Default,
            })
            .unwrap();
    }
    assert_eq!(index.list_all().len(), 5);
}

#[test]
fn test_extent_index_default() {
    let mut index = ExtentIndex::default();
    assert_eq!(index.count(), 0);
}

#[test]
fn test_storage_class_default() {
    assert_eq!(StorageClass::default(), StorageClass::Default);
}

#[test]
fn test_different_versions_different_paths() {
    let eid = ExtentId::generate();
    let p1 = committed_extent_path("/mnt", eid, 1);
    let p2 = committed_extent_path("/mnt", eid, 2);
    assert_ne!(p1, p2);
}

#[test]
fn test_init_directories() {
    let disk = FakeDisk::new("/mnt/disk7", DiskId::generate());
    disk.init_directories();
    assert!(disk.dirs.borrow().contains(&"/mnt/disk7/staged".to_string()));
    assert!(disk.dirs.borrow().contains(&"/mnt/disk7/committed".to_string()));
}

#[test]
fn test_disk_id_accessor() {
    let disk_id = DiskId::generate();
    let store = ExtentStore::new("/tmp".to_string(), disk_id);
    assert_eq!(store.disk_id(), disk_id);
}

#[test]
fn test_mount_path_accessor() {
    let store = ExtentStore::new("/mnt/disk0".to_string(), DiskId::generate());
    assert_eq!(store.mount_path(), "/mnt/disk0");
}

#[test]
fn test_recovery_report_default() {
    let r = RecoveryReport::default();
    assert_eq!(r.committed_recovered, 0);
    assert_eq!(r.staged_discarded, 0);
    assert_eq!(r.errors, 0);
}

#[test]
fn test_cleanup_orphaned_no_staged_dir() {
    let disk = FakeDisk::new("/mnt/disk7", DiskId::generate());
    let cleaned = disk.cleanup_orphaned_staged(0).unwrap();
    assert!(cleaned.is_empty());
}

#[test]
fn test_commit_extent_meta_durable_before_rename() {
    let (_dir, store) = setup_disk();
    let eid = ExtentId::generate();
    let data = b"meta durability test";

    let (_, checksum) = store.stage_extent(eid, 1, data).unwrap();
    let entry = store
        .commit_extent(eid, 1, &checksum, data.len() as u64, StorageClass::Default)
        .unwrap();

    let meta_path = extent_meta_path(store.mount_path(), eid, 1);
    assert!(store.holds(&meta_path), "metadata sidecar must exist after commit");

    let meta = store.metas.borrow()[&meta_path].clone();
    assert_eq!(meta.extent_id, eid);
    assert_eq!(meta.version, 1);
    assert_eq!(meta.checksum, checksum);
    assert_eq!(meta.size, data.len() as u64);

    assert!(store.holds(&entry.path), "committed data file must exist");
}
#[test]
fn checksums_are_blake3() {
    assert_eq!(
        compute_checksum(b""),
        "af1349b9f5f9a1a6a0404dea36dcc9499bcb25c9adc112b7cc9a93cae41f3262"
    );
    assert_eq!(
        compute_checksum(b"abc"),
        "6437b3ac38465133ffb63b75273a8db548c558465d79db03fd359c6cd5bd9d85"
    );
}

#[test]
fn paths_follow_the_layout() {
    let eid = ExtentId::new(0x12345678_9abc_def0_1234_56789abcdef0);
    let name = "12345678-9abc-def0-1234-56789abcdef0_v7";
    assert_eq!(
        committed_extent_path("/mnt/disk0", eid, 7),
        format!("/mnt/disk0/committed/12345678/{name}")
    );
    assert_eq!(
        staged_extent_path("/mnt/disk0", eid, 7),
        format!("/mnt/disk0/staged/{name}.staging")
    );
    assert_eq!(
        extent_meta_path("/mnt/disk0", eid, 7),
        format!("/mnt/disk0/committed/12345678/{name}.meta")
    );
    assert_eq!(join_path("/mnt/", "a"), "/mnt/a");
    assert_eq!(join_path("", "a"), "a");
}

#[test]
fn a_crash_leaves_the_extent_staged_or_committed_with_metadata() {
    let eid = ExtentId::new(77);
    let store = ExtentStore::new("/d".to_string(), DiskId::new(1));
    let staged = staged_extent_path("/d", eid, 1);
    let committed = committed_extent_path("/d", eid, 1);
    let plan = store
        .commit_extent(eid, 1, "sum", 3, StorageClass::Archive, 9, true, false)
        .unwrap();
    for crash_after in 0..=plan.actions.len() {
        let mut files = vec![staged.clone()];
        for action in &plan.actions[..crash_after] {
            match action {
                CommitAction::WriteMeta { path, .. } => files.push(path.clone()),
                CommitAction::Promote { from, to } => {
                    files.retain(|f| f != from);
                    files.push(to.clone());
                }
                CommitAction::CreateDir { .. } | CommitAction::SyncDir { .. } => {}
            }
        }
        assert_ne!(files.contains(&staged), files.contains(&committed));
        if files.contains(&committed) {
            assert!(files.contains(&extent_meta_path("/d", eid, 1)));
        }
    }
}

#[test]
fn a_commit_leaves_other_extents_alone() {
    let (_dir, disk) = setup_disk();
    let first = ExtentId::new(1);
    let (_, checksum) = disk.stage_extent(first, 1, b"first").unwrap();
    disk.commit_extent(first, 1, &checksum, 5, StorageClass::Default).unwrap();
    for (extent, version) in [(first, 2), (ExtentId::new(2), 1)] {
        let (staged, checksum) = disk.stage_extent(extent, version, b"other").unwrap();
        assert_ne!(staged, committed_extent_path("/mnt/disk0", first, 1));
        assert_ne!(staged, extent_meta_path("/mnt/disk0", first, 1));
        disk.commit_extent(extent, version, &checksum, 5, StorageClass::Archive).unwrap();
    }
    assert_eq!(disk.read_extent(first, 1).unwrap().0, b"first".to_vec());
    let meta = extent_meta_path("/mnt/disk0", first, 1);
    assert_eq!(disk.metas.borrow()[&meta].storage_class, StorageClass::Default);
}

#[test]
fn every_refusal_names_its_file() {
    let eid = ExtentId::new(1);
    let store = ExtentStore::new("/d".to_string(), DiskId::new(1));
    let commit = |staged: bool, committed: bool| {
        store
            .commit_extent(eid, 1, "s", 0, StorageClass::Default, 0, staged, committed)
            .unwrap_err()
            .to_text()
    };
    assert_eq!(
        commit(false, true),
        format!("staging error: staged file not found: {}", staged_extent_path("/d", eid, 1))
    );
    assert_eq!(
        commit(true, true),
        format!(
            "immutability violation: committed extent already exists: {}",
            committed_extent_path("/d", eid, 1)
        )
    );
    let missing = store.read_extent(eid, 1, None, None).unwrap_err();
    assert_eq!(
        missing.to_text(),
        format!(
            "extent not found: committed extent not found: {}",
            committed_extent_path("/d", eid, 1)
        )
    );
    let wrong = store
        .read_extent(eid, 1, Some(b"abc".to_vec()), Some("other".to_string()))
        .unwrap_err();
    assert_eq!(
        wrong.to_text(),
        format!(
            "checksum mismatch: extent {} v1: expected other, got {}",
            eid.to_text(),
            compute_checksum(b"abc")
        )
    );
    let unrecorded = store.read_extent(eid, 1, Some(b"abc".to_vec()), None).unwrap();
    assert_eq!(unrecorded, (b"abc".to_vec(), compute_checksum(b"abc")));
}

#[test]
fn every_file_failure_has_its_text() {
    let text = |purpose, step| file_failure(purpose, step, "/f", "why").to_text();
    assert_eq!(
        text(FilePurpose::Staging, FileStep::Create),
        "staging error: failed to create staging file /f: why"
    );
    assert_eq!(
        text(FilePurpose::Staging, FileStep::Write),
        "staging error: failed to write staging file /f: why"
    );
    assert_eq!(
        text(FilePurpose::Staging, FileStep::Sync),
        "staging error: fsync failed for staging file /f: why"
    );
    assert_eq!(
        text(FilePurpose::Metadata, FileStep::Create),
        "staging error: failed to create metadata file /f: why"
    );
    assert_eq!(
        text(FilePurpose::Metadata, FileStep::Write),
        "staging error: failed to write metadata file /f: why"
    );
    assert_eq!(
        text(FilePurpose::Metadata, FileStep::Sync),
        "staging error: fsync failed for metadata file /f: why"
    );
    assert!(rename_failure("/a", "/b", "why").to_text().contains("/b"));
    assert!(sync_dir_failure("/a", true, "why").to_text().contains("why"));
}

#[test]
fn recovery_counts_what_it_cannot_read() {
    let store = ExtentStore::new("/d".to_string(), DiskId::new(1));
    let meta = |id: u128| ExtentMeta {
        extent_id: ExtentId::new(id),
        disk_id: DiskId::new(1),
        version: 1,
        checksum: "s".to_string(),
        size: 1,
        storage_class: StorageClass::Default,
        committed_at: 0,
    };
    let file = |name: &str, meta: MetaFile| CommittedFile {
        path: format!("/d/committed/{name}"),
        name: name.to_string(),
        meta,
    };
    let files = vec![
        file("a", MetaFile::Holds(meta(1))),
        file("a.meta", MetaFile::Missing),
        file("b", MetaFile::Missing),
        file("c", MetaFile::Corrupt("eof".to_string())),
        file("d", MetaFile::Unreadable("eio".to_string())),
        file("e", MetaFile::Holds(meta(2))),
    ];
    let mut index = ExtentIndex::new();
    let report = store.recover(&files, 4, &mut index);
    assert_eq!(report.committed_recovered, 2);
    assert_eq!(report.errors, 3);
    assert_eq!(report.staged_discarded, 4);
    assert_eq!(index.get(ExtentId::new(2)).unwrap().path, "/d/committed/e");
    assert_eq!(
        recover_extent_from_file(&"/x".to_string(), &files[3].meta).unwrap_err().to_text(),
        "extent not found: corrupt metadata at /x.meta: eof"
    );
    assert_eq!(
        recover_extent_from_file(&"/x".to_string(), &files[2].meta).unwrap_err().to_text(),
        "extent not found: metadata file missing for /x"
    );
}
