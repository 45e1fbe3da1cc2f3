use blockyard::ids::{DiskId, ExtentId};
use blockyard::storage::background::repair::{
    check_fragments, gather_fragments, rebuild_outcome, EcReconstructor, FragmentReader,
    RepairConfig, RepairExtentReader, RepairExtentWriter, RepairOutcome, RepairRequest, RepairType,
    RepairWorker, ReplicationState,
};
use std::collections::HashMap;


struct FakeRepairReader {
    data: parking_lot::Mutex<HashMap<(DiskId, ExtentId), Vec<u8>>>,
}

impl FakeRepairReader {
    fn new() -> Self {
        Self {
            data: parking_lot::Mutex::new(HashMap::new()),
        }
    }

    fn add(&self, disk: DiskId, extent: ExtentId, data: Vec<u8>) {
        self.data.lock().insert((disk, extent), data);
    }
}

impl RepairExtentReader for FakeRepairReader {
    fn read_extent(
        &mut self,
        source_disk: DiskId,
        extent_id: ExtentId,
        _version: u64,
    ) -> Result<Vec<u8>, String> {
        self.data
            .lock()
            .get(&(source_disk, extent_id))
            .cloned()
            .ok_or_else(|| "not found".into())
    }
}

struct FakeFragmentReader {
    fragments: parking_lot::Mutex<HashMap<(DiskId, ExtentId, usize), Vec<u8>>>,
}

impl FakeFragmentReader {
    fn new() -> Self {
        Self {
            fragments: parking_lot::Mutex::new(HashMap::new()),
        }
    }

    fn add(&self, disk: DiskId, extent: ExtentId, idx: usize, data: Vec<u8>) {
        self.fragments
            .lock()
            .insert((disk, extent, idx), data);
    }
}

impl FragmentReader for FakeFragmentReader {
    fn read_fragment(
        &mut self,
        source_disk: DiskId,
        extent_id: ExtentId,
        fragment_index: usize,
    ) -> Result<Vec<u8>, String> {
        self.fragments
            .lock()
            .get(&(source_disk, extent_id, fragment_index))
            .cloned()
            .ok_or_else(|| "fragment not found".into())
    }
}

struct FakeRepairWriter {
    written: parking_lot::Mutex<Vec<(DiskId, ExtentId, Vec<u8>)>>,
    fail: parking_lot::Mutex<bool>,
}

impl FakeRepairWriter {
    fn new() -> Self {
        Self {
            written: parking_lot::Mutex::new(Vec::new()),
            fail: parking_lot::Mutex::new(false),
        }
    }

    fn set_fail(&self, fail: bool) {
        *self.fail.lock() = fail;
    }

    fn written(&self) -> Vec<(DiskId, ExtentId, Vec<u8>)> {
        self.written.lock().clone()
    }
}

impl RepairExtentWriter for FakeRepairWriter {
    fn write_extent(
        &mut self,
        target_disk: DiskId,
        extent_id: ExtentId,
        _version: u64,
        data: &[u8],
    ) -> Result<(), String> {
        if *self.fail.lock() {
            return Err("write failed".into());
        }
        self.written
            .lock()
            .push((target_disk, extent_id, data.to_vec()));
        Ok(())
    }
}

struct FakeEcReconstructor {
    result: parking_lot::Mutex<Option<Result<Vec<u8>, String>>>,
}

impl FakeEcReconstructor {
    fn new(result: Result<Vec<u8>, String>) -> Self {
        Self {
            result: parking_lot::Mutex::new(Some(result)),
        }
    }
}

impl EcReconstructor for FakeEcReconstructor {
    fn reconstruct(
        &mut self,
        _data_count: usize,
        _parity_count: usize,
        _fragments: Vec<Option<Vec<u8>>>,
        _original_len: usize,
    ) -> Result<Vec<u8>, String> {
        self.result
            .lock()
            .take()
            .unwrap_or(Ok(b"reconstructed".to_vec()))
    }
}

#[test]
fn test_repair_config_default() {
    let config = RepairConfig::default();
    assert_eq!(config.max_concurrent, 4);
    assert_eq!(config.tokens_per_repair, 10);
}

#[test]
fn test_repair_type_replication_eq() {
    let a = RepairType::Replication {
        healthy_sources: vec![DiskId::generate()],
    };
    let b = a.clone();
    assert_eq!(a, b);
}

#[test]
fn test_repair_type_ec_eq() {
    let a = RepairType::ErasureCode {
        data_count: 4,
        parity_count: 2,
        available_fragments: vec![],
        original_data_len: 100,
    };
    let b = a.clone();
    assert_eq!(a, b);
}

#[test]
fn test_repair_request_debug() {
    let req = RepairRequest {
        extent_id: ExtentId::generate(),
        version: 1,
        target_disk_id: DiskId::generate(),
        repair_type: RepairType::Replication {
            healthy_sources: vec![],
        },
        priority: 0,
    };
    let debug = format!("{:?}", req);
    assert!(debug.contains("RepairRequest"));
}

#[test]
fn test_repair_outcome_debug() {
    let outcome = RepairOutcome {
        extent_id: ExtentId::generate(),
        target_disk_id: DiskId::generate(),
        success: true,
        error: None,
    };
    let debug = format!("{:?}", outcome);
    assert!(debug.contains("RepairOutcome"));
}

#[test]
fn test_enqueue_and_queue_len() {
    let mut worker = RepairWorker::new(RepairConfig::default());
    assert_eq!(worker.queue_len(), 0);

    worker.enqueue(RepairRequest {
        extent_id: ExtentId::generate(),
        version: 1,
        target_disk_id: DiskId::generate(),
        repair_type: RepairType::Replication {
            healthy_sources: vec![],
        },
        priority: 5,
    });
    assert_eq!(worker.queue_len(), 1);
}

#[test]
fn test_enqueue_priority_ordering() {
    let mut worker = RepairWorker::new(RepairConfig::default());

    let e1 = ExtentId::generate();
    let e2 = ExtentId::generate();
    let e3 = ExtentId::generate();

    worker.enqueue(RepairRequest {
        extent_id: e1,
        version: 1,
        target_disk_id: DiskId::generate(),
        repair_type: RepairType::Replication {
            healthy_sources: vec![],
        },
        priority: 10,
    });
    worker.enqueue(RepairRequest {
        extent_id: e2,
        version: 1,
        target_disk_id: DiskId::generate(),
        repair_type: RepairType::Replication {
            healthy_sources: vec![],
        },
        priority: 1,
    });
    worker.enqueue(RepairRequest {
        extent_id: e3,
        version: 1,
        target_disk_id: DiskId::generate(),
        repair_type: RepairType::Replication {
            healthy_sources: vec![],
        },
        priority: 5,
    });

    let queue = &worker.queue;
    assert_eq!(queue[0].extent_id, e2); // priority 1 first
    assert_eq!(queue[1].extent_id, e3); // priority 5 next
    assert_eq!(queue[2].extent_id, e1); // priority 10 last
}

#[test]
fn test_process_next_empty_queue() {
    let mut worker = RepairWorker::new(RepairConfig::default());
    let mut reader = FakeRepairReader::new();
    let mut frag_reader = FakeFragmentReader::new();
    let mut writer = FakeRepairWriter::new();
    let mut ec = FakeEcReconstructor::new(Ok(Vec::new()));

    let result = worker
        .process_next(&mut reader, &mut frag_reader, &mut writer, &mut ec);
    assert!(result.is_none());
}

#[test]
fn test_replication_repair_success() {
    let mut worker = RepairWorker::new(RepairConfig::default());
    let mut reader = FakeRepairReader::new();
    let mut writer = FakeRepairWriter::new();
    let mut frag_reader = FakeFragmentReader::new();
    let mut ec = FakeEcReconstructor::new(Ok(Vec::new()));

    let source_disk = DiskId::generate();
    let target_disk = DiskId::generate();
    let extent_id = ExtentId::generate();
    let data = vec![1, 2, 3, 4];
    reader.add(source_disk, extent_id, data.clone());

    worker.enqueue(RepairRequest {
        extent_id,
        version: 1,
        target_disk_id: target_disk,
        repair_type: RepairType::Replication {
            healthy_sources: vec![source_disk],
        },
        priority: 0,
    });

    let outcome = worker
        .process_next(&mut reader, &mut frag_reader, &mut writer, &mut ec)
        .unwrap();
    assert!(outcome.success);
    assert_eq!(outcome.extent_id, extent_id);

    let written = writer.written();
    assert_eq!(written.len(), 1);
    assert_eq!(written[0].2, data);
}

#[test]
fn test_replication_repair_source_failover() {
    let mut worker = RepairWorker::new(RepairConfig::default());
    let mut reader = FakeRepairReader::new();
    let mut writer = FakeRepairWriter::new();
    let mut frag_reader = FakeFragmentReader::new();
    let mut ec = FakeEcReconstructor::new(Ok(Vec::new()));

    let bad_source = DiskId::generate();
    let good_source = DiskId::generate();
    let target_disk = DiskId::generate();
    let extent_id = ExtentId::generate();
    let data = vec![5, 6, 7, 8];
    // Only add data for the second source
    reader.add(good_source, extent_id, data.clone());

    worker.enqueue(RepairRequest {
        extent_id,
        version: 1,
        target_disk_id: target_disk,
        repair_type: RepairType::Replication {
            healthy_sources: vec![bad_source, good_source],
        },
        priority: 0,
    });

    let outcome = worker
        .process_next(&mut reader, &mut frag_reader, &mut writer, &mut ec)
        .unwrap();
    assert!(outcome.success);
}

#[test]
fn test_replication_repair_all_sources_fail() {
    let mut worker = RepairWorker::new(RepairConfig::default());
    let mut reader = FakeRepairReader::new();
    let mut writer = FakeRepairWriter::new();
    let mut frag_reader = FakeFragmentReader::new();
    let mut ec = FakeEcReconstructor::new(Ok(Vec::new()));

    let extent_id = ExtentId::generate();
    worker.enqueue(RepairRequest {
        extent_id,
        version: 1,
        target_disk_id: DiskId::generate(),
        repair_type: RepairType::Replication {
            healthy_sources: vec![DiskId::generate()],
        },
        priority: 0,
    });

    let outcome = worker
        .process_next(&mut reader, &mut frag_reader, &mut writer, &mut ec)
        .unwrap();
    assert!(!outcome.success);
    assert!(outcome.error.is_some());
}

#[test]
fn test_replication_repair_write_failure() {
    let mut worker = RepairWorker::new(RepairConfig::default());
    let mut reader = FakeRepairReader::new();
    let mut writer = FakeRepairWriter::new();
    let mut frag_reader = FakeFragmentReader::new();
    let mut ec = FakeEcReconstructor::new(Ok(Vec::new()));

    let source_disk = DiskId::generate();
    let extent_id = ExtentId::generate();
    reader.add(source_disk, extent_id, vec![1, 2, 3]);
    writer.set_fail(true);

    worker.enqueue(RepairRequest {
        extent_id,
        version: 1,
        target_disk_id: DiskId::generate(),
        repair_type: RepairType::Replication {
            healthy_sources: vec![source_disk],
        },
        priority: 0,
    });

    let outcome = worker
        .process_next(&mut reader, &mut frag_reader, &mut writer, &mut ec)
        .unwrap();
    assert!(!outcome.success);
}

#[test]
fn test_ec_repair_success() {
    let mut worker = RepairWorker::new(RepairConfig::default());
    let mut reader = FakeRepairReader::new();
    let mut frag_reader = FakeFragmentReader::new();
    let mut writer = FakeRepairWriter::new();

    let extent_id = ExtentId::generate();
    let disk0 = DiskId::generate();
    let disk1 = DiskId::generate();
    let target = DiskId::generate();

    frag_reader.add(disk0, extent_id, 0, vec![10, 20]);
    frag_reader.add(disk1, extent_id, 1, vec![30, 40]);

    let reconstructed = b"reconstructed data".to_vec();
    let mut ec = FakeEcReconstructor::new(Ok(reconstructed.clone()));

    worker.enqueue(RepairRequest {
        extent_id,
        version: 1,
        target_disk_id: target,
        repair_type: RepairType::ErasureCode {
            data_count: 2,
            parity_count: 1,
            available_fragments: vec![(0, disk0), (1, disk1)],
            original_data_len: 4,
        },
        priority: 0,
    });

    let outcome = worker
        .process_next(&mut reader, &mut frag_reader, &mut writer, &mut ec)
        .unwrap();
    assert!(outcome.success);

    let written = writer.written();
    assert_eq!(written.len(), 1);
    assert_eq!(written[0].2, reconstructed.to_vec());
}

#[test]
fn test_ec_repair_insufficient_fragments() {
    let mut worker = RepairWorker::new(RepairConfig::default());
    let mut reader = FakeRepairReader::new();
    let mut frag_reader = FakeFragmentReader::new();
    let mut writer = FakeRepairWriter::new();
    let mut ec = FakeEcReconstructor::new(Ok(Vec::new()));

    let extent_id = ExtentId::generate();
    // data_count=2 but only 1 fragment available and readable
    let disk0 = DiskId::generate();
    frag_reader.add(disk0, extent_id, 0, vec![10, 20]);

    worker.enqueue(RepairRequest {
        extent_id,
        version: 1,
        target_disk_id: DiskId::generate(),
        repair_type: RepairType::ErasureCode {
            data_count: 2,
            parity_count: 1,
            available_fragments: vec![(0, disk0)],
            original_data_len: 4,
        },
        priority: 0,
    });

    let outcome = worker
        .process_next(&mut reader, &mut frag_reader, &mut writer, &mut ec)
        .unwrap();
    assert!(!outcome.success);
    assert!(outcome.error.as_ref().is_some_and(|e| e.contains("insufficient")));
}

#[test]
fn test_ec_repair_reconstruction_failure() {
    let mut worker = RepairWorker::new(RepairConfig::default());
    let mut reader = FakeRepairReader::new();
    let mut frag_reader = FakeFragmentReader::new();
    let mut writer = FakeRepairWriter::new();

    let extent_id = ExtentId::generate();
    let disk0 = DiskId::generate();
    let disk1 = DiskId::generate();
    frag_reader.add(disk0, extent_id, 0, vec![10]);
    frag_reader.add(disk1, extent_id, 1, vec![20]);

    let mut ec = FakeEcReconstructor::new(Err("codec error".into()));

    worker.enqueue(RepairRequest {
        extent_id,
        version: 1,
        target_disk_id: DiskId::generate(),
        repair_type: RepairType::ErasureCode {
            data_count: 2,
            parity_count: 1,
            available_fragments: vec![(0, disk0), (1, disk1)],
            original_data_len: 2,
        },
        priority: 0,
    });

    let outcome = worker
        .process_next(&mut reader, &mut frag_reader, &mut writer, &mut ec)
        .unwrap();
    assert!(!outcome.success);
    assert!(outcome.error.as_ref().is_some_and(|e| e.contains("reconstruction")));
}

#[test]
fn test_process_all() {
    let mut worker = RepairWorker::new(RepairConfig::default());
    let mut reader = FakeRepairReader::new();
    let mut frag_reader = FakeFragmentReader::new();
    let mut writer = FakeRepairWriter::new();
    let mut ec = FakeEcReconstructor::new(Ok(Vec::new()));

    let source = DiskId::generate();
    let target = DiskId::generate();

    for _ in 0..3 {
        let eid = ExtentId::generate();
        reader.add(source, eid, vec![1, 2, 3]);
        worker.enqueue(RepairRequest {
            extent_id: eid,
            version: 1,
            target_disk_id: target,
            repair_type: RepairType::Replication {
                healthy_sources: vec![source],
            },
            priority: 0,
        });
    }

    let outcomes = worker
        .process_all(&mut reader, &mut frag_reader, &mut writer, &mut ec);
    assert_eq!(outcomes.len(), 3);
    assert!(outcomes.iter().all(|o| o.success));
}

#[test]
fn test_completed_tracking() {
    let mut worker = RepairWorker::new(RepairConfig::default());
    let mut reader = FakeRepairReader::new();
    let mut frag_reader = FakeFragmentReader::new();
    let mut writer = FakeRepairWriter::new();
    let mut ec = FakeEcReconstructor::new(Ok(Vec::new()));

    let source = DiskId::generate();
    let extent_id = ExtentId::generate();
    reader.add(source, extent_id, vec![1]);

    worker.enqueue(RepairRequest {
        extent_id,
        version: 1,
        target_disk_id: DiskId::generate(),
        repair_type: RepairType::Replication {
            healthy_sources: vec![source],
        },
        priority: 0,
    });

    assert!(worker.completed().is_empty());
    worker
        .process_next(&mut reader, &mut frag_reader, &mut writer, &mut ec);
    assert_eq!(worker.completed().len(), 1);
}

#[test]
fn test_repair_worker_debug() {
    let mut worker = RepairWorker::new(RepairConfig::default());
    let debug = format!("{:?}", worker);
    assert!(debug.contains("RepairWorker"));
}

#[test]
fn test_repair_config_clone() {
    let config = RepairConfig::default();
    let cloned = config.clone();
    assert_eq!(cloned.max_concurrent, config.max_concurrent);
}

#[test]
fn test_repair_outcome_clone() {
    let outcome = RepairOutcome {
        extent_id: ExtentId::generate(),
        target_disk_id: DiskId::generate(),
        success: true,
        error: None,
    };
    let cloned = outcome.clone();
    assert_eq!(cloned.success, outcome.success);
}

#[test]
fn test_ec_repair_write_failure() {
    let mut worker = RepairWorker::new(RepairConfig::default());
    let mut reader = FakeRepairReader::new();
    let mut frag_reader = FakeFragmentReader::new();
    let mut writer = FakeRepairWriter::new();

    let extent_id = ExtentId::generate();
    let disk0 = DiskId::generate();
    let disk1 = DiskId::generate();
    frag_reader.add(disk0, extent_id, 0, vec![10]);
    frag_reader.add(disk1, extent_id, 1, vec![20]);

    writer.set_fail(true);
    let mut ec = FakeEcReconstructor::new(Ok(b"data".to_vec()));

    worker.enqueue(RepairRequest {
        extent_id,
        version: 1,
        target_disk_id: DiskId::generate(),
        repair_type: RepairType::ErasureCode {
            data_count: 2,
            parity_count: 1,
            available_fragments: vec![(0, disk0), (1, disk1)],
            original_data_len: 2,
        },
        priority: 0,
    });

    let outcome = worker
        .process_next(&mut reader, &mut frag_reader, &mut writer, &mut ec)
        .unwrap();
    assert!(!outcome.success);
    assert!(outcome.error.as_ref().is_some_and(|e| e.contains("write failed")));
}
fn request(extent: u128, priority: u32) -> RepairRequest {
    RepairRequest {
        extent_id: ExtentId::new(extent),
        version: 1,
        target_disk_id: DiskId::new(9),
        repair_type: RepairType::Replication {
            healthy_sources: vec![],
        },
        priority,
    }
}

#[test]
fn equal_priorities_are_served_in_order_of_arrival() {
    let mut worker = RepairWorker::new(RepairConfig::default());
    for (extent, priority) in [(1, 5), (2, 1), (3, 5), (4, 1), (5, 3)] {
        worker.enqueue(request(extent, priority));
    }
    let mut order = Vec::new();
    while let Some(next) = worker.take_next() {
        order.push(next.extent_id);
    }
    let expected: Vec<ExtentId> = [2, 4, 5, 1, 3].iter().map(|e| ExtentId::new(*e)).collect();
    assert_eq!(order, expected);
}

#[test]
fn replication_goes_through_the_sources() {
    let state = ReplicationState::new(2);
    assert_eq!(state, ReplicationState::Reading { at: 0 });
    let state = state.next(true, 2);
    assert_eq!(state, ReplicationState::Writing { at: 0 });
    let state = state.next(false, 2);
    assert_eq!(state, ReplicationState::Reading { at: 1 });
    assert_eq!(
        state.next(false, 2),
        ReplicationState::Done { success: false }
    );
    let state = state.next(true, 2).next(true, 2);
    assert_eq!(state, ReplicationState::Done { success: true });
    assert_eq!(
        ReplicationState::new(0),
        ReplicationState::Done { success: false }
    );
}

#[test]
fn fragments_stand_at_their_index() {
    let disk = DiskId::new(1);
    let fragments = gather_fragments(
        3,
        &vec![(2, disk), (0, disk), (5, disk), (2, disk), (1, disk)],
        vec![
            Ok(vec![1]),
            Ok(vec![2]),
            Ok(vec![3]),
            Ok(vec![4]),
            Err("gone".to_string()),
        ],
    );
    assert_eq!(fragments, vec![Some(vec![2]), None, Some(vec![4])]);
    assert!(check_fragments(&request(1, 0), 2, &fragments).is_none());
    let outcome = check_fragments(&request(1, 0), 3, &fragments).unwrap();
    assert_eq!(
        outcome.error.unwrap(),
        "insufficient fragments: have 2, need 3"
    );
}

#[test]
fn a_failed_rebuild_says_why() {
    let outcome = rebuild_outcome(&request(1, 0), &Err("disk full".to_string()));
    assert!(!outcome.success);
    assert_eq!(outcome.error.unwrap(), "EC repair write failed: disk full");
    assert!(rebuild_outcome(&request(1, 0), &Ok(())).success);
}

/// Keeps count of what it is asked for.
struct Ledger {
    reads: Vec<(DiskId, u64)>,
    fragment_reads: Vec<(DiskId, usize)>,
    writes: Vec<(DiskId, Vec<u8>)>,
    rebuilds: Vec<(usize, usize, Vec<Option<Vec<u8>>>, usize)>,
}

struct ReadsOf<'a>(&'a mut Ledger, Vec<DiskId>);
struct FragmentsOf<'a>(&'a mut Ledger, Vec<usize>);
struct WritesOf<'a>(&'a mut Ledger, Vec<bool>);
struct RebuildsOf<'a>(&'a mut Ledger, bool);

impl RepairExtentReader for ReadsOf<'_> {
    fn read_extent(
        &mut self,
        source_disk: DiskId,
        _extent_id: ExtentId,
        version: u64,
    ) -> Result<Vec<u8>, String> {
        self.0.reads.push((source_disk, version));
        if self.1.contains(&source_disk) {
            Ok(vec![source_disk.value as u8])
        } else {
            Err("gone".to_string())
        }
    }
}

impl FragmentReader for FragmentsOf<'_> {
    fn read_fragment(
        &mut self,
        source_disk: DiskId,
        _extent_id: ExtentId,
        fragment_index: usize,
    ) -> Result<Vec<u8>, String> {
        self.0.fragment_reads.push((source_disk, fragment_index));
        if self.1.contains(&fragment_index) {
            Ok(vec![fragment_index as u8])
        } else {
            Err("gone".to_string())
        }
    }
}

impl RepairExtentWriter for WritesOf<'_> {
    fn write_extent(
        &mut self,
        target_disk: DiskId,
        _extent_id: ExtentId,
        _version: u64,
        data: &[u8],
    ) -> Result<(), String> {
        self.0.writes.push((target_disk, data.to_vec()));
        if self.1.remove(0) {
            Ok(())
        } else {
            Err("full".to_string())
        }
    }
}

impl EcReconstructor for RebuildsOf<'_> {
    fn reconstruct(
        &mut self,
        data_count: usize,
        parity_count: usize,
        fragments: Vec<Option<Vec<u8>>>,
        original_len: usize,
    ) -> Result<Vec<u8>, String> {
        self.0.rebuilds.push((data_count, parity_count, fragments, original_len));
        if self.1 {
            Ok(vec![42])
        } else {
            Err("codec".to_string())
        }
    }
}

fn ledger() -> Ledger {
    Ledger {
        reads: Vec::new(),
        fragment_reads: Vec::new(),
        writes: Vec::new(),
        rebuilds: Vec::new(),
    }
}

/// Repairs with the given sources and fragments readable and the given answers to writes.
fn run_repair(
    request: &RepairRequest,
    readable: Vec<DiskId>,
    fragments: Vec<usize>,
    writes: Vec<bool>,
    rebuilds: bool,
) -> (RepairOutcome, Ledger) {
    let mut a = ledger();
    let mut b = ledger();
    let mut c = ledger();
    let mut d = ledger();
    let outcome = RepairWorker::repair(
        request,
        &mut ReadsOf(&mut a, readable),
        &mut FragmentsOf(&mut b, fragments),
        &mut WritesOf(&mut c, writes),
        &mut RebuildsOf(&mut d, rebuilds),
    );
    let all = Ledger {
        reads: a.reads,
        fragment_reads: b.fragment_reads,
        writes: c.writes,
        rebuilds: d.rebuilds,
    };
    (outcome, all)
}

#[test]
fn a_copy_tries_each_source_once_and_writes_what_it_read() {
    let disks: Vec<DiskId> = (1..=4).map(DiskId::new).collect();
    let mut copy = request(1, 0);
    copy.version = 7;
    copy.repair_type = RepairType::Replication {
        healthy_sources: disks.clone(),
    };
    let (outcome, calls) = run_repair(
        &copy,
        vec![disks[1], disks[2], disks[3]],
        vec![],
        vec![false, true],
        true,
    );
    assert!(outcome.success);
    assert!(outcome.error.is_none());
    assert_eq!(calls.reads, vec![(disks[0], 7), (disks[1], 7), (disks[2], 7)]);
    assert_eq!(
        calls.writes,
        vec![(DiskId::new(9), vec![2]), (DiskId::new(9), vec![3])]
    );
    assert!(calls.fragment_reads.is_empty());
    assert!(calls.rebuilds.is_empty());

    let (outcome, calls) = run_repair(&copy, vec![disks[3]], vec![], vec![false], true);
    assert!(!outcome.success);
    assert_eq!(outcome.error.unwrap(), "all healthy sources failed");
    assert_eq!(calls.reads.len(), 4);
    assert_eq!(calls.writes.len(), 1);
}

#[test]
fn a_rebuild_reads_every_fragment_and_writes_at_most_once() {
    let disk = DiskId::new(5);
    let mut rebuild = request(1, 0);
    rebuild.repair_type = RepairType::ErasureCode {
        data_count: 2,
        parity_count: 1,
        available_fragments: vec![(2, disk), (0, disk), (1, disk)],
        original_data_len: 11,
    };
    let (outcome, calls) = run_repair(&rebuild, vec![], vec![1], vec![true], true);
    assert_eq!(
        outcome.error.unwrap(),
        "insufficient fragments: have 1, need 2"
    );
    assert_eq!(calls.fragment_reads, vec![(disk, 2), (disk, 0), (disk, 1)]);
    assert!(calls.rebuilds.is_empty());
    assert!(calls.writes.is_empty());

    let (outcome, calls) = run_repair(&rebuild, vec![], vec![0, 2], vec![true], false);
    assert_eq!(outcome.error.unwrap(), "EC reconstruction failed: codec");
    assert_eq!(
        calls.rebuilds,
        vec![(2, 1, vec![Some(vec![0]), None, Some(vec![2])], 11)]
    );
    assert!(calls.writes.is_empty());

    let (outcome, calls) = run_repair(&rebuild, vec![], vec![0, 1, 2], vec![false], true);
    assert_eq!(outcome.error.unwrap(), "EC repair write failed: full");
    assert_eq!(calls.writes, vec![(DiskId::new(9), vec![42])]);
    assert!(calls.reads.is_empty());

    let (outcome, calls) = run_repair(&rebuild, vec![], vec![0, 1, 2], vec![true], true);
    assert!(outcome.success);
    assert_eq!(calls.rebuilds.len(), 1);
    assert_eq!(calls.writes, vec![(DiskId::new(9), vec![42])]);
}
