use blockyard::ids::{DiskId, ExtentId};
use blockyard::storage::background::rebalance::{
    DiskUtilization, RebalanceConfig, RebalanceInventory, RebalanceMove, RebalancePlan,
    RebalanceSurvey, RebalanceWorker,
};
use blockyard::storage::background::repair::{RepairConfig, RepairWorker};
use std::collections::HashMap;

/// Utilization fraction (0.0 to 1.0).
fn utilization(d: &DiskUtilization) -> f64 {
    if d.total_bytes == 0 {
        return 0.0;
    }
    d.used_bytes as f64 / d.total_bytes as f64
}

/// What the utilizations amount to under a threshold.
fn survey(inventory: &FakeRebalanceInventory, config: &RebalanceConfig) -> RebalanceSurvey {
    let threshold = f64::from_bits(config.imbalance_threshold_bits);
    let mut disks = inventory.utilizations.clone();
    let used: f64 = disks.iter().map(|d| d.used_bytes as f64).sum();
    let total: f64 = disks.iter().map(|d| d.total_bytes as f64).sum();
    let mean = if total == 0.0 { 0.0 } else { used / total };
    let max = disks
        .iter()
        .map(|d| (utilization(d) - mean).abs())
        .fold(0.0f64, f64::max);
    disks.sort_by(|a, b| utilization(b).total_cmp(&utilization(a)));
    let far = threshold / 2.0;
    RebalanceSurvey {
        imbalanced: !disks.is_empty() && max >= threshold,
        over_utilized: disks
            .iter()
            .filter(|d| utilization(d) - mean > far)
            .map(|d| d.disk_id)
            .collect(),
        under_utilized: disks
            .iter()
            .filter(|d| utilization(d) - mean < -far)
            .map(|d| d.disk_id)
            .collect(),
        max_imbalance_bits: max.to_bits(),
    }
}


struct FakeRebalanceInventory {
    utilizations: Vec<DiskUtilization>,
    extents: HashMap<DiskId, Vec<(ExtentId, u64)>>,
    sources: HashMap<ExtentId, Vec<DiskId>>,
}

impl FakeRebalanceInventory {
    fn new() -> Self {
        Self {
            utilizations: Vec::new(),
            extents: HashMap::new(),
            sources: HashMap::new(),
        }
    }

    fn with_disk(
        mut self,
        disk_id: DiskId,
        used: u64,
        total: u64,
        extents: Vec<(ExtentId, u64)>,
    ) -> Self {
        self.utilizations.push(DiskUtilization {
            disk_id,
            used_bytes: used,
            total_bytes: total,
            extent_count: extents.len() as u64,
        });
        for &(eid, _) in &extents {
            self.sources.entry(eid).or_default().push(disk_id);
        }
        self.extents.insert(disk_id, extents);
        self
    }
}

impl RebalanceInventory for FakeRebalanceInventory {
    fn get_disk_utilizations(&mut self) -> Vec<DiskUtilization> {
        self.utilizations.clone()
    }

    fn list_moveable_extents(&mut self, disk_id: DiskId) -> Vec<(ExtentId, u64)> {
        self.extents.get(&disk_id).cloned().unwrap_or_default()
    }

    fn healthy_sources_for_extent(&mut self, extent_id: ExtentId) -> Vec<DiskId> {
        self.sources.get(&extent_id).cloned().unwrap_or_default()
    }
}

#[test]
fn test_rebalance_config_default() {
    let config = RebalanceConfig::default();
    assert!((f64::from_bits(config.imbalance_threshold_bits) - 0.1).abs() < f64::EPSILON);
    assert_eq!(config.max_moves_per_pass, 100);
    assert_eq!(config.tokens_per_move, 5);
    assert_eq!(config.check_interval_secs, 300);
}

#[test]
fn test_rebalance_config_clone() {
    let config = RebalanceConfig::default();
    let cloned = config.clone();
    assert_eq!(cloned.max_moves_per_pass, config.max_moves_per_pass);
}

#[test]
fn test_disk_utilization() {
    let d = DiskUtilization {
        disk_id: DiskId::generate(),
        used_bytes: 500,
        total_bytes: 1000,
        extent_count: 10,
    };
    assert!((utilization(&d) - 0.5).abs() < f64::EPSILON);
}

#[test]
fn test_disk_utilization_zero_total() {
    let d = DiskUtilization {
        disk_id: DiskId::generate(),
        used_bytes: 0,
        total_bytes: 0,
        extent_count: 0,
    };
    assert!((utilization(&d)).abs() < f64::EPSILON);
}

#[test]
fn test_disk_utilization_full() {
    let d = DiskUtilization {
        disk_id: DiskId::generate(),
        used_bytes: 1000,
        total_bytes: 1000,
        extent_count: 5,
    };
    assert!((utilization(&d) - 1.0).abs() < f64::EPSILON);
}

#[test]
fn test_disk_utilization_debug() {
    let d = DiskUtilization {
        disk_id: DiskId::generate(),
        used_bytes: 100,
        total_bytes: 200,
        extent_count: 3,
    };
    let debug = format!("{:?}", d);
    assert!(debug.contains("DiskUtilization"));
}

#[test]
fn test_rebalance_move_debug() {
    let mv = RebalanceMove {
        extent_id: ExtentId::generate(),
        version: 1,
        source_disk: DiskId::generate(),
        target_disk: DiskId::generate(),
    };
    let debug = format!("{:?}", mv);
    assert!(debug.contains("RebalanceMove"));
}

#[test]
fn test_rebalance_plan_debug() {
    let plan = RebalancePlan {
        moves: vec![],
        needed: false,
        max_imbalance_bits: (0.05f64).to_bits(),
    };
    let debug = format!("{:?}", plan);
    assert!(debug.contains("RebalancePlan"));
}

#[test]
fn test_rebalance_worker_new() {
    let mut worker = RebalanceWorker::new(RebalanceConfig::default());
    assert!(worker.last_plan().is_none());
}

#[test]
fn test_rebalance_worker_debug() {
    let mut worker = RebalanceWorker::new(RebalanceConfig::default());
    let debug = format!("{:?}", worker);
    assert!(debug.contains("RebalanceWorker"));
}

#[test]
fn test_generate_plan_no_disks() {
    let mut worker = RebalanceWorker::new(RebalanceConfig::default());
    let mut inventory = FakeRebalanceInventory::new();
    let plan = worker.generate_plan(&survey(&inventory, &worker.config), &mut inventory);
    assert!(!plan.needed);
    assert!(plan.moves.is_empty());
}

#[test]
fn test_generate_plan_balanced() {
    let disk1 = DiskId::generate();
    let disk2 = DiskId::generate();

    let mut worker = RebalanceWorker::new(RebalanceConfig::default());
    let mut inventory = FakeRebalanceInventory::new()
        .with_disk(disk1, 500, 1000, vec![])
        .with_disk(disk2, 500, 1000, vec![]);

    let plan = worker.generate_plan(&survey(&inventory, &worker.config), &mut inventory);
    assert!(!plan.needed);
}

#[test]
fn test_generate_plan_imbalanced() {
    let disk1 = DiskId::generate();
    let disk2 = DiskId::generate();
    let eid = ExtentId::generate();

    let mut worker = RebalanceWorker::new(RebalanceConfig {
        imbalance_threshold_bits: (0.1f64).to_bits(),
        max_moves_per_pass: 100,
        tokens_per_move: 1,
        check_interval_secs: 60,
    });

    let mut inventory = FakeRebalanceInventory::new()
        .with_disk(disk1, 900, 1000, vec![(eid, 1)])
        .with_disk(disk2, 100, 1000, vec![]);

    let plan = worker.generate_plan(&survey(&inventory, &worker.config), &mut inventory);
    assert!(plan.needed);
    assert!(!plan.moves.is_empty());
    assert!(f64::from_bits(plan.max_imbalance_bits) > 0.1);
}

#[test]
fn test_generate_plan_max_moves_limit() {
    let disk1 = DiskId::generate();
    let disk2 = DiskId::generate();

    let mut extents = Vec::new();
    for _ in 0..50 {
        extents.push((ExtentId::generate(), 1));
    }

    let mut worker = RebalanceWorker::new(RebalanceConfig {
        imbalance_threshold_bits: (0.1f64).to_bits(),
        max_moves_per_pass: 5,
        tokens_per_move: 1,
        check_interval_secs: 60,
    });

    let mut inventory = FakeRebalanceInventory::new()
        .with_disk(disk1, 900, 1000, extents)
        .with_disk(disk2, 100, 1000, vec![]);

    let plan = worker.generate_plan(&survey(&inventory, &worker.config), &mut inventory);
    assert!(plan.moves.len() <= 5);
}

#[test]
fn test_generate_plan_stored() {
    let mut worker = RebalanceWorker::new(RebalanceConfig::default());
    let mut inventory = FakeRebalanceInventory::new();

    assert!(worker.last_plan().is_none());
    worker.generate_plan(&survey(&inventory, &worker.config), &mut inventory);
    assert!(worker.last_plan().is_some());
}

#[test]
fn test_execute_plan_empty() {
    let mut worker = RebalanceWorker::new(RebalanceConfig::default());
    let mut inventory = FakeRebalanceInventory::new();
    let mut repair = RepairWorker::new(RepairConfig::default());

    let plan = RebalancePlan {
        moves: vec![],
        needed: false,
        max_imbalance_bits: (0.0f64).to_bits(),
    };

    let submitted = worker
        .execute_plan(&plan, &mut inventory, &mut repair);
    assert_eq!(submitted, 0);
}

#[test]
fn test_execute_plan_with_moves() {
    let disk1 = DiskId::generate();
    let disk2 = DiskId::generate();
    let eid = ExtentId::generate();

    let mut worker = RebalanceWorker::new(RebalanceConfig::default());
    let mut inventory = FakeRebalanceInventory::new()
        .with_disk(disk1, 500, 1000, vec![(eid, 1)]);
    let mut repair = RepairWorker::new(RepairConfig::default());

    let plan = RebalancePlan {
        moves: vec![RebalanceMove {
            extent_id: eid,
            version: 1,
            source_disk: disk1,
            target_disk: disk2,
        }],
        needed: true,
        max_imbalance_bits: (0.3f64).to_bits(),
    };

    let submitted = worker
        .execute_plan(&plan, &mut inventory, &mut repair);
    assert_eq!(submitted, 1);
    assert_eq!(repair.queue_len(), 1);
}

#[test]
fn test_rebalance_pass_no_rebalance_needed() {
    let disk1 = DiskId::generate();
    let disk2 = DiskId::generate();

    let mut worker = RebalanceWorker::new(RebalanceConfig::default());
    let mut inventory = FakeRebalanceInventory::new()
        .with_disk(disk1, 500, 1000, vec![])
        .with_disk(disk2, 500, 1000, vec![]);
    let mut repair = RepairWorker::new(RepairConfig::default());

    let plan = worker.rebalance_pass(&survey(&inventory, &worker.config), &mut inventory, &mut repair);
    assert!(!plan.needed);
    assert_eq!(repair.queue_len(), 0);
}

#[test]
fn test_rebalance_pass_with_rebalance() {
    let disk1 = DiskId::generate();
    let disk2 = DiskId::generate();
    let eid = ExtentId::generate();

    let mut worker = RebalanceWorker::new(RebalanceConfig {
        imbalance_threshold_bits: (0.1f64).to_bits(),
        max_moves_per_pass: 100,
        tokens_per_move: 1,
        check_interval_secs: 60,
    });

    let mut inventory = FakeRebalanceInventory::new()
        .with_disk(disk1, 900, 1000, vec![(eid, 1)])
        .with_disk(disk2, 100, 1000, vec![]);
    let mut repair = RepairWorker::new(RepairConfig::default());

    let plan = worker.rebalance_pass(&survey(&inventory, &worker.config), &mut inventory, &mut repair);
    assert!(plan.needed);
    assert!(repair.queue_len() > 0);
}

#[test]
fn test_rebalance_plan_clone() {
    let plan = RebalancePlan {
        moves: vec![RebalanceMove {
            extent_id: ExtentId::generate(),
            version: 1,
            source_disk: DiskId::generate(),
            target_disk: DiskId::generate(),
        }],
        needed: true,
        max_imbalance_bits: (0.3f64).to_bits(),
    };
    let cloned = plan.clone();
    assert_eq!(cloned.moves.len(), plan.moves.len());
    assert_eq!(cloned.needed, plan.needed);
}

#[test]
fn test_rebalance_move_clone() {
    let mv = RebalanceMove {
        extent_id: ExtentId::generate(),
        version: 1,
        source_disk: DiskId::generate(),
        target_disk: DiskId::generate(),
    };
    let cloned = mv.clone();
    assert_eq!(cloned.extent_id, mv.extent_id);
}

#[test]
fn test_disk_utilization_clone() {
    let d = DiskUtilization {
        disk_id: DiskId::generate(),
        used_bytes: 100,
        total_bytes: 200,
        extent_count: 5,
    };
    let cloned = d.clone();
    assert_eq!(cloned.used_bytes, d.used_bytes);
}
#[test]
fn moves_go_from_the_fullest_disks_to_the_first_empty_one() {
    let over = [DiskId::new(1), DiskId::new(2)];
    let under = [DiskId::new(3), DiskId::new(4)];
    let extents = |from: u128| -> Vec<(ExtentId, u64)> {
        (from..from + 3).map(|e| (ExtentId::new(e), e as u64)).collect()
    };
    let mut inventory = FakeRebalanceInventory::new()
        .with_disk(over[0], 900, 1000, extents(10))
        .with_disk(over[1], 800, 1000, extents(20))
        .with_disk(under[0], 100, 1000, vec![])
        .with_disk(under[1], 50, 1000, vec![]);
    let mut worker = RebalanceWorker::new(RebalanceConfig {
        max_moves_per_pass: 4,
        ..Default::default()
    });
    let seen = survey(&inventory, &worker.config);
    assert_eq!(seen.over_utilized, over.to_vec());
    assert_eq!(seen.under_utilized, under.to_vec());
    let plan = worker.generate_plan(&seen, &mut inventory);
    let moved: Vec<(u128, u64, DiskId, DiskId)> = plan
        .moves
        .iter()
        .map(|m| (m.extent_id.value, m.version, m.source_disk, m.target_disk))
        .collect();
    assert_eq!(
        moved,
        vec![
            (10, 10, over[0], under[0]),
            (11, 11, over[0], under[0]),
            (12, 12, over[0], under[0]),
            (20, 20, over[1], under[0]),
        ]
    );
    assert!(plan.needed);
    let mut repair = RepairWorker::new(RepairConfig::default());
    assert_eq!(worker.execute_plan(&plan, &mut inventory, &mut repair), 4);
    assert_eq!(repair.queue[0].priority, 200);
    assert_eq!(repair.queue[3].target_disk_id, under[0]);
}

#[test]
fn nothing_moves_without_a_target() {
    let mut inventory = FakeRebalanceInventory::new().with_disk(
        DiskId::new(1),
        900,
        1000,
        vec![(ExtentId::new(1), 1)],
    );
    let mut worker = RebalanceWorker::new(RebalanceConfig::default());
    let seen = RebalanceSurvey {
        imbalanced: true,
        over_utilized: vec![DiskId::new(1)],
        under_utilized: vec![],
        max_imbalance_bits: 0,
    };
    let plan = worker.generate_plan(&seen, &mut inventory);
    assert!(!plan.needed);
    assert!(plan.moves.is_empty());
}
