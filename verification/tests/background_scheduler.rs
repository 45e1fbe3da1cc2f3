use blockyard::ids::{DiskId, ExtentId};
use blockyard::storage::background::drain::DrainConfig;
use blockyard::storage::background::rate_limit::TokenBucket;
use blockyard::storage::background::rebalance::RebalanceConfig;
use blockyard::storage::background::repair::{RepairConfig, RepairRequest, RepairType};
use blockyard::storage::background::scheduler::{
    BackgroundScheduler, SchedulerConfig, SchedulerStatus, TaskPriority,
};
use blockyard::storage::background::scrub::ScrubConfig;
use std::collections::HashSet;


#[test]
fn test_task_priority_ordering() {
    assert!(TaskPriority::Foreground < TaskPriority::Repair);
    assert!(TaskPriority::Repair < TaskPriority::Scrub);
    assert!(TaskPriority::Scrub < TaskPriority::Drain);
    assert!(TaskPriority::Drain < TaskPriority::Rebalance);
}

#[test]
fn test_task_priority_eq() {
    assert_eq!(TaskPriority::Foreground, TaskPriority::Foreground);
    assert_ne!(TaskPriority::Foreground, TaskPriority::Repair);
}

#[test]
fn test_task_priority_debug() {
    let debug = format!("{:?}", TaskPriority::Repair);
    assert_eq!(debug, "Repair");
}

#[test]
fn test_task_priority_clone() {
    let p = TaskPriority::Scrub;
    let cloned = p;
    assert_eq!(p, cloned);
}

#[test]
fn test_task_priority_hash() {
    let mut set = HashSet::new();
    set.insert(TaskPriority::Repair);
    set.insert(TaskPriority::Repair);
    set.insert(TaskPriority::Scrub);
    assert_eq!(set.len(), 2);
}

#[test]
fn test_scheduler_config_default() {
    let config = SchedulerConfig::default();
    assert_eq!(config.total_budget_tokens_per_sec, 100);
    assert_eq!(config.burst_capacity, 200);
}

#[test]
fn test_scheduler_config_clone() {
    let config = SchedulerConfig::default();
    let cloned = config.clone();
    assert_eq!(
        cloned.total_budget_tokens_per_sec,
        config.total_budget_tokens_per_sec
    );
}

#[test]
fn test_scheduler_config_debug() {
    let config = SchedulerConfig::default();
    let debug = format!("{:?}", config);
    assert!(debug.contains("SchedulerConfig"));
}

#[test]
fn test_scheduler_new() {
    let mut scheduler = BackgroundScheduler::new(SchedulerConfig::default(), 0);
    assert_eq!(scheduler.config().total_budget_tokens_per_sec, 100);
    assert!(scheduler.available_budget(0) > 0);
}

#[test]
fn test_scheduler_debug() {
    let mut scheduler = BackgroundScheduler::new(SchedulerConfig::default(), 0);
    let debug = format!("{:?}", scheduler);
    assert!(debug.contains("BackgroundScheduler"));
}

#[test]
fn test_scheduler_rate_limiter() {
    let mut scheduler = BackgroundScheduler::new(SchedulerConfig {
        burst_capacity: 500,
        total_budget_tokens_per_sec: 100,
        ..Default::default()
    }, 0);
    assert_eq!(scheduler.rate_limiter().capacity(), 500);
    assert_eq!(scheduler.rate_limiter().refill_rate(), 100);
}

#[test]
fn test_scheduler_scrub_worker() {
    let mut scheduler = BackgroundScheduler::new(SchedulerConfig::default(), 0);
    let worker = scheduler.scrub_worker();
    assert!(worker.last_results().is_empty());
}

#[test]
fn test_scheduler_repair_worker() {
    let mut scheduler = BackgroundScheduler::new(SchedulerConfig::default(), 0);
    let worker = scheduler.repair_worker();
    assert_eq!(worker.queue_len(), 0);
}

#[test]
fn test_scheduler_rebalance_worker() {
    let mut scheduler = BackgroundScheduler::new(SchedulerConfig::default(), 0);
    let worker = scheduler.rebalance_worker();
    assert!(worker.last_plan().is_none());
}

#[test]
fn test_scheduler_drain_worker() {
    let mut scheduler = BackgroundScheduler::new(SchedulerConfig::default(), 0);
    let worker = scheduler.drain_worker();
    assert!(worker.progress().is_none());
}

#[test]
fn test_scheduler_status() {
    let mut scheduler = BackgroundScheduler::new(SchedulerConfig::default(), 0);
    let status = scheduler.status(0);
    assert_eq!(status.repair_backlog, 0);
    assert!(!status.drain_active);
    assert_eq!(status.scrub_results_count, 0);
    assert!(!status.rebalance_planned);
    assert!(status.available_tokens > 0);
}

#[test]
fn test_scheduler_status_debug() {
    let status = SchedulerStatus {
        repair_backlog: 5,
        drain_active: true,
        scrub_results_count: 3,
        rebalance_planned: false,
        available_tokens: 42,
    };
    let debug = format!("{:?}", status);
    assert!(debug.contains("SchedulerStatus"));
}

#[test]
fn test_scheduler_status_clone() {
    let status = SchedulerStatus {
        repair_backlog: 10,
        drain_active: false,
        scrub_results_count: 2,
        rebalance_planned: true,
        available_tokens: 100,
    };
    let cloned = status.clone();
    assert_eq!(cloned.repair_backlog, status.repair_backlog);
    assert_eq!(cloned.drain_active, status.drain_active);
}

#[test]
fn test_scheduler_custom_config() {
    let config = SchedulerConfig {
        total_budget_tokens_per_sec: 500,
        burst_capacity: 1000,
        scrub: ScrubConfig {
            interval_secs: 3600,
            tokens_per_extent: 2,
        },
        repair: RepairConfig {
            max_concurrent: 8,
            tokens_per_repair: 20,
        },
        rebalance: RebalanceConfig {
            imbalance_threshold_bits: (0.2f64).to_bits(),
            max_moves_per_pass: 50,
            tokens_per_move: 10,
            check_interval_secs: 600,
        },
        drain: DrainConfig {
            tokens_per_relocate: 10,
            inter_relocate_delay_ms: 200,
        },
    };

    let mut scheduler = BackgroundScheduler::new(config, 0);
    assert_eq!(scheduler.config().total_budget_tokens_per_sec, 500);
    assert_eq!(scheduler.scrub_worker().config().interval_secs, 3600);
    assert_eq!(scheduler.repair_worker().config().max_concurrent, 8);
    assert_eq!(scheduler.drain_worker().config().tokens_per_relocate, 10);
}

#[test]
fn test_scheduler_status_with_repair_backlog() {
    let mut scheduler = BackgroundScheduler::new(SchedulerConfig::default(), 0);

    // Enqueue some repair requests
    scheduler.repair_worker.enqueue(
        RepairRequest {
            extent_id: ExtentId::generate(),
            version: 1,
            target_disk_id: DiskId::generate(),
            repair_type: RepairType::Replication {
                healthy_sources: vec![],
            },
            priority: 0,
        },
    );

    let status = scheduler.status(0);
    assert_eq!(status.repair_backlog, 1);
}

#[test]
fn test_all_task_priority_variants() {
    let priorities = [
        TaskPriority::Foreground,
        TaskPriority::Repair,
        TaskPriority::Scrub,
        TaskPriority::Drain,
        TaskPriority::Rebalance,
    ];
    // Verify they're all distinct
    for (i, a) in priorities.iter().enumerate() {
        for (j, b) in priorities.iter().enumerate() {
            if i == j {
                assert_eq!(a, b);
            } else {
                assert_ne!(a, b);
            }
        }
    }
}
#[test]
fn test_module_exports() {
    // Verify all public types are accessible
    let _: fn() -> TokenBucket = || TokenBucket::new(100, 100, 0);
    let _ = TaskPriority::Foreground;
    let _ = TaskPriority::Repair;
    let _ = TaskPriority::Scrub;
    let _ = TaskPriority::Rebalance;
    let _ = TaskPriority::Drain;
}

#[test]
fn the_budget_comes_back_with_time() {
    let mut scheduler = BackgroundScheduler::new(SchedulerConfig::default(), 0);
    assert!(scheduler.rate_limiter.try_acquire(200, 0));
    assert_eq!(scheduler.available_budget(0), 0);
    assert_eq!(scheduler.available_budget(500), 50);
    assert_eq!(scheduler.status(1500).available_tokens, 150);
    assert_eq!(scheduler.available_budget(1_000_000), 200);
}

#[test]
fn ranks_follow_the_order() {
    let order = [
        TaskPriority::Foreground,
        TaskPriority::Repair,
        TaskPriority::Scrub,
        TaskPriority::Drain,
        TaskPriority::Rebalance,
    ];
    for (i, p) in order.iter().enumerate() {
        assert_eq!(p.rank() as usize, i);
    }
    let mut shuffled = [order[3], order[0], order[4], order[2], order[1]];
    shuffled.sort();
    assert_eq!(shuffled, order);
}
