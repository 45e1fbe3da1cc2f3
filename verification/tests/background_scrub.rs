use blockyard::ids::{DiskId, ExtentId};
use blockyard::storage::background::scrub::{
    CorruptionNotification, CorruptionReason, ExtentReader, ScrubConfig, ScrubExtentEntry,
    ScrubResult, ScrubWorker,
};


struct FakeExtentReader {
    disks: Vec<DiskId>,
    extents: Vec<ScrubExtentEntry>,
    read_results: parking_lot::Mutex<
        std::collections::HashMap<ExtentId, Result<(Vec<u8>, String), String>>,
    >,
}

impl FakeExtentReader {
    fn new() -> Self {
        Self {
            disks: Vec::new(),
            extents: Vec::new(),
            read_results: parking_lot::Mutex::new(std::collections::HashMap::new()),
        }
    }

    fn with_disk(mut self, disk_id: DiskId) -> Self {
        self.disks.push(disk_id);
        self
    }

    fn with_extent(
        mut self,
        entry: ScrubExtentEntry,
        result: Result<(Vec<u8>, String), String>,
    ) -> Self {
        let eid = entry.extent_id;
        self.extents.push(entry);
        self.read_results.lock().insert(eid, result);
        self
    }
}

impl ExtentReader for FakeExtentReader {
    fn read_extent(
        &mut self,
        _disk_id: DiskId,
        extent_id: ExtentId,
        _version: u64,
    ) -> Result<(Vec<u8>, String), String> {
        let results = self.read_results.lock();
        results
            .get(&extent_id)
            .cloned()
            .unwrap_or(Err("extent not found".into()))
    }

    fn list_extents(&mut self, disk_id: DiskId) -> Vec<ScrubExtentEntry> {
        self.extents
            .iter()
            .filter(|e| e.disk_id == disk_id)
            .cloned()
            .collect()
    }

    fn list_disks(&mut self) -> Vec<DiskId> {
        self.disks.clone()
    }
}

#[test]
fn test_scrub_config_default() {
    let config = ScrubConfig::default();
    assert_eq!(config.interval_secs, 86400);
    assert_eq!(config.tokens_per_extent, 1);
}

#[test]
fn test_scrub_config_custom() {
    let config = ScrubConfig {
        interval_secs: 3600,
        tokens_per_extent: 2,
    };
    assert_eq!(config.interval_secs, 3600);
    assert_eq!(config.tokens_per_extent, 2);
}

#[test]
fn test_scrub_result_debug() {
    let result = ScrubResult {
        disk_id: DiskId::generate(),
        extents_checked: 100,
        checksum_errors: 2,
        read_errors: 1,
        metadata_errors: 0,
        duration_ms: 10000,
    };
    let debug = format!("{:?}", result);
    assert!(debug.contains("ScrubResult"));
}

#[test]
fn test_corruption_reason_checksum_mismatch() {
    let reason = CorruptionReason::ChecksumMismatch {
        expected: "abc".into(),
        actual: "def".into(),
    };
    assert_eq!(
        reason,
        CorruptionReason::ChecksumMismatch {
            expected: "abc".into(),
            actual: "def".into()
        }
    );
}

#[test]
fn test_corruption_reason_read_error() {
    let reason = CorruptionReason::ReadError("io fail".into());
    assert_eq!(reason, CorruptionReason::ReadError("io fail".into()));
}

#[test]
fn test_corruption_reason_missing_metadata() {
    let reason = CorruptionReason::MissingMetadata;
    assert_eq!(reason, CorruptionReason::MissingMetadata);
}

#[test]
fn test_corruption_notification_debug() {
    let note = CorruptionNotification {
        disk_id: DiskId::generate(),
        extent_id: ExtentId::generate(),
        reason: CorruptionReason::MissingMetadata,
    };
    let debug = format!("{:?}", note);
    assert!(debug.contains("CorruptionNotification"));
}

#[test]
fn test_scrub_worker_new() {
    let mut worker = ScrubWorker::new(ScrubConfig::default());
    assert_eq!(worker.config().interval_secs, 86400);
    assert!(worker.last_results().is_empty());
}

#[test]
fn test_scrub_pass_no_disks() {
    let mut worker = ScrubWorker::new(ScrubConfig::default());
    let mut reader = FakeExtentReader::new();
    let mut sent: Vec<CorruptionNotification> = Vec::new();

    let results = worker.scrub_pass(&mut reader, &|| 0, &mut sent);
    assert!(results.is_empty());
}

#[test]
fn test_scrub_pass_healthy_extents() {
    let disk_id = DiskId::generate();
    let eid = ExtentId::generate();
    let checksum = "abc123".to_string();

    let mut reader = FakeExtentReader::new().with_disk(disk_id).with_extent(
        ScrubExtentEntry {
            extent_id: eid,
            disk_id,
            expected_checksum: checksum.clone(),
            version: 1,
        },
        Ok((vec![1, 2, 3], checksum)),
    );

    let mut worker = ScrubWorker::new(ScrubConfig::default());
    let mut sent: Vec<CorruptionNotification> = Vec::new();

    let results = worker.scrub_pass(&mut reader, &|| 0, &mut sent);
    assert_eq!(results.len(), 1);
    assert_eq!(results[0].extents_checked, 1);
    assert_eq!(results[0].checksum_errors, 0);
    assert_eq!(results[0].read_errors, 0);
}

#[test]
fn test_scrub_pass_checksum_mismatch() {
    let disk_id = DiskId::generate();
    let eid = ExtentId::generate();

    let mut reader = FakeExtentReader::new().with_disk(disk_id).with_extent(
        ScrubExtentEntry {
            extent_id: eid,
            disk_id,
            expected_checksum: "expected".to_string(),
            version: 1,
        },
        Ok((vec![1, 2, 3], "actual_different".to_string())),
    );

    let mut worker = ScrubWorker::new(ScrubConfig::default());
    let mut sent: Vec<CorruptionNotification> = Vec::new();

    let results = worker.scrub_pass(&mut reader, &|| 0, &mut sent);
    assert_eq!(results[0].checksum_errors, 1);

    let notification = sent.pop().expect("should receive corruption notification");
    assert_eq!(notification.extent_id, eid);
    match notification.reason {
        CorruptionReason::ChecksumMismatch { expected, actual } => {
            assert_eq!(expected, "expected");
            assert_eq!(actual, "actual_different");
        }
        _ => panic!("expected ChecksumMismatch"),
    }
}

#[test]
fn test_scrub_pass_read_error() {
    let disk_id = DiskId::generate();
    let eid = ExtentId::generate();

    let mut reader = FakeExtentReader::new().with_disk(disk_id).with_extent(
        ScrubExtentEntry {
            extent_id: eid,
            disk_id,
            expected_checksum: "abc".to_string(),
            version: 1,
        },
        Err("io error".to_string()),
    );

    let mut worker = ScrubWorker::new(ScrubConfig::default());
    let mut sent: Vec<CorruptionNotification> = Vec::new();

    let results = worker.scrub_pass(&mut reader, &|| 0, &mut sent);
    assert_eq!(results[0].read_errors, 1);

    let notification = sent.pop().expect("should receive notification");
    match notification.reason {
        CorruptionReason::ReadError(msg) => assert!(msg.contains("io error")),
        _ => panic!("expected ReadError"),
    }
}

#[test]
fn test_scrub_pass_metadata_error() {
    let disk_id = DiskId::generate();
    let eid = ExtentId::generate();

    let mut reader = FakeExtentReader::new().with_disk(disk_id).with_extent(
        ScrubExtentEntry {
            extent_id: eid,
            disk_id,
            expected_checksum: "abc".to_string(),
            version: 1,
        },
        Err("metadata not found".to_string()),
    );

    let mut worker = ScrubWorker::new(ScrubConfig::default());
    let mut sent: Vec<CorruptionNotification> = Vec::new();

    let results = worker.scrub_pass(&mut reader, &|| 0, &mut sent);
    assert_eq!(results[0].metadata_errors, 1);

    let notification = sent.pop().expect("should receive notification");
    assert_eq!(notification.reason, CorruptionReason::MissingMetadata);
}

#[test]
fn test_scrub_pass_multiple_disks() {
    let disk1 = DiskId::generate();
    let disk2 = DiskId::generate();
    let eid1 = ExtentId::generate();
    let eid2 = ExtentId::generate();

    let mut reader = FakeExtentReader::new()
        .with_disk(disk1)
        .with_disk(disk2)
        .with_extent(
            ScrubExtentEntry {
                extent_id: eid1,
                disk_id: disk1,
                expected_checksum: "c1".to_string(),
                version: 1,
            },
            Ok((vec![1], "c1".to_string())),
        )
        .with_extent(
            ScrubExtentEntry {
                extent_id: eid2,
                disk_id: disk2,
                expected_checksum: "c2".to_string(),
                version: 1,
            },
            Ok((vec![2], "c2".to_string())),
        );

    let mut worker = ScrubWorker::new(ScrubConfig::default());
    let mut sent: Vec<CorruptionNotification> = Vec::new();

    let results = worker.scrub_pass(&mut reader, &|| 0, &mut sent);
    assert_eq!(results.len(), 2);
}

#[test]
fn test_scrub_last_results_stored() {
    let disk_id = DiskId::generate();

    let mut reader = FakeExtentReader::new().with_disk(disk_id);

    let mut worker = ScrubWorker::new(ScrubConfig::default());
    let mut sent: Vec<CorruptionNotification> = Vec::new();

    assert!(worker.last_results().is_empty());
    worker.scrub_pass(&mut reader, &|| 0, &mut sent);
    assert_eq!(worker.last_results().len(), 1);
}

#[test]
fn test_scrub_extent_entry_clone() {
    let entry = ScrubExtentEntry {
        extent_id: ExtentId::generate(),
        disk_id: DiskId::generate(),
        expected_checksum: "abc".to_string(),
        version: 1,
    };
    let cloned = entry.clone();
    assert_eq!(cloned.extent_id, entry.extent_id);
    assert_eq!(cloned.expected_checksum, entry.expected_checksum);
}

#[test]
fn test_scrub_config_clone() {
    let config = ScrubConfig::default();
    let cloned = config.clone();
    assert_eq!(cloned.interval_secs, config.interval_secs);
}

#[test]
fn test_scrub_result_clone() {
    let result = ScrubResult {
        disk_id: DiskId::generate(),
        extents_checked: 10,
        checksum_errors: 1,
        read_errors: 0,
        metadata_errors: 0,
        duration_ms: 5000,
    };
    let cloned = result.clone();
    assert_eq!(cloned.extents_checked, result.extents_checked);
}

#[test]
fn test_scrub_worker_debug() {
    let mut worker = ScrubWorker::new(ScrubConfig::default());
    let debug = format!("{:?}", worker);
    assert!(debug.contains("ScrubWorker"));
}

#[test]
fn test_scrub_pass_mixed_results() {
    let disk_id = DiskId::generate();
    let eid1 = ExtentId::generate();
    let eid2 = ExtentId::generate();
    let eid3 = ExtentId::generate();

    let mut reader = FakeExtentReader::new()
        .with_disk(disk_id)
        .with_extent(
            ScrubExtentEntry {
                extent_id: eid1,
                disk_id,
                expected_checksum: "good".to_string(),
                version: 1,
            },
            Ok((vec![1], "good".to_string())),
        )
        .with_extent(
            ScrubExtentEntry {
                extent_id: eid2,
                disk_id,
                expected_checksum: "expected".to_string(),
                version: 1,
            },
            Ok((vec![2], "mismatch".to_string())),
        )
        .with_extent(
            ScrubExtentEntry {
                extent_id: eid3,
                disk_id,
                expected_checksum: "x".to_string(),
                version: 1,
            },
            Err("read failure".to_string()),
        );

    let mut worker = ScrubWorker::new(ScrubConfig::default());
    let mut sent: Vec<CorruptionNotification> = Vec::new();

    let results = worker.scrub_pass(&mut reader, &|| 0, &mut sent);
    assert_eq!(results[0].extents_checked, 3);
    assert_eq!(results[0].checksum_errors, 1);
    assert_eq!(results[0].read_errors, 1);
}
#[test]
fn one_notification_for_each_error() {
    let disk_id = DiskId::new(1);
    let mut reader = FakeExtentReader::new().with_disk(disk_id);
    let reads: Vec<Result<(Vec<u8>, String), String>> = vec![
        Ok((vec![], "sum".to_string())),
        Ok((vec![], "other".to_string())),
        Err("metadata".to_string()),
        Err("the metadata file is gone".to_string()),
        Err("Metadata".to_string()),
        Err("metadat".to_string()),
        Err(String::new()),
    ];
    for (i, read) in reads.into_iter().enumerate() {
        reader = reader.with_extent(
            ScrubExtentEntry {
                extent_id: ExtentId::new(i as u128),
                disk_id,
                expected_checksum: "sum".to_string(),
                version: 1,
            },
            read,
        );
    }
    let mut worker = ScrubWorker::new(ScrubConfig::default());
    let mut sent = Vec::new();
    let results = worker.scrub_pass(&mut reader, &|| 0, &mut sent);
    assert_eq!(results[0].extents_checked, 7);
    assert_eq!(results[0].checksum_errors, 1);
    assert_eq!(results[0].metadata_errors, 2);
    assert_eq!(results[0].read_errors, 3);
    assert_eq!(sent.len(), 6);
    for (i, note) in sent.iter().enumerate() {
        assert_eq!(note.extent_id, ExtentId::new(i as u128 + 1));
        assert_eq!(note.disk_id, disk_id);
    }
    assert_eq!(
        sent[3].reason,
        CorruptionReason::ReadError("Metadata".to_string())
    );
}

#[test]
fn the_clock_tells_how_long_each_disk_took() {
    let mut reader = FakeExtentReader::new()
        .with_disk(DiskId::new(1))
        .with_disk(DiskId::new(2))
        .with_disk(DiskId::new(3));
    let readings = std::cell::RefCell::new(vec![100u64, 130, 130, 137, 200, 150]);
    let clock = || readings.borrow_mut().remove(0);
    let mut worker = ScrubWorker::new(ScrubConfig::default());
    let mut sent = Vec::new();
    let results = worker.scrub_pass(&mut reader, &clock, &mut sent);
    let took: Vec<u64> = results.iter().map(|r| r.duration_ms).collect();
    assert_eq!(took, vec![30, 7, 0]);
    assert_eq!(worker.last_results()[0].duration_ms, 30);
    assert!(readings.borrow().is_empty());
}
