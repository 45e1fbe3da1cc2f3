//! Background task scheduler.
//!
//! Coordinates all background workers, orders their tasks by priority, and manages
//! configurable IO budgets.

use crate::storage::background::drain::{DrainConfig, DrainWorker};
use crate::storage::background::rate_limit::TokenBucket;
use crate::storage::background::rebalance::{RebalanceConfig, RebalanceWorker};
use crate::storage::background::repair::{RepairConfig, RepairWorker};
use crate::storage::background::scrub::{ScrubConfig, ScrubWorker};
use core::cmp::Ordering;
use vstd::prelude::*;

verus! {

/// Priority levels for background tasks, the most urgent first.
#[derive(Clone, Copy, Debug, PartialEq, Eq, Ord, Hash, Structural)]
pub enum TaskPriority {
    /// Foreground IO: highest priority, never throttled.
    Foreground,
    /// Repair: data durability depends on timely repair.
    Repair,
    /// Scrub: detect corruption early.
    Scrub,
    /// Drain: disk decommission.
    Drain,
    /// Rebalance: optimize but not urgent.
    Rebalance,
}

impl TaskPriority {
    /// The number of the level (lower number = higher priority).
    pub open spec fn level(self) -> u8 {
        match self {
            TaskPriority::Foreground => 0,
            TaskPriority::Repair => 1,
            TaskPriority::Scrub => 2,
            TaskPriority::Drain => 3,
            TaskPriority::Rebalance => 4,
        }
    }

    /// The number of the level (lower number = higher priority).
    pub fn rank(&self) -> (r: u8)
        ensures
            r == self.level(),
    {
        match self {
            TaskPriority::Foreground => 0,
            TaskPriority::Repair => 1,
            TaskPriority::Scrub => 2,
            TaskPriority::Drain => 3,
            TaskPriority::Rebalance => 4,
        }
    }
}

impl PartialOrd for TaskPriority {
    fn partial_cmp(&self, other: &Self) -> (r: Option<Ordering>) {
        let a: u8 = self.rank();
        let b: u8 = other.rank();
        if a < b {
            Some(Ordering::Less)
        } else if a == b {
            Some(Ordering::Equal)
        } else {
            Some(Ordering::Greater)
        }
    }
}

impl vstd::std_specs::cmp::PartialOrdSpecImpl for TaskPriority {
    open spec fn obeys_partial_cmp_spec() -> bool {
        true
    }

    open spec fn partial_cmp_spec(&self, other: &Self) -> Option<Ordering> {
        if self.level() < other.level() {
            Some(Ordering::Less)
        } else if self.level() == other.level() {
            Some(Ordering::Equal)
        } else {
            Some(Ordering::Greater)
        }
    }
}

/// Different kinds of task have different levels: no two are equally urgent.
pub proof fn task_priorities_are_distinct(a: TaskPriority, b: TaskPriority)
    ensures
        a.level() == b.level() ==> a == b,
{
}

/// Configuration for the background scheduler.
#[derive(Clone, Copy, Debug)]
pub struct SchedulerConfig {
    /// Total IO budget in tokens/sec for all background work.
    pub total_budget_tokens_per_sec: u64,
    /// Maximum burst capacity for the token bucket.
    pub burst_capacity: u64,
    /// Scrub worker configuration.
    pub scrub: ScrubConfig,
    /// Repair worker configuration.
    pub repair: RepairConfig,
    /// Rebalance worker configuration.
    pub rebalance: RebalanceConfig,
    /// Drain worker configuration.
    pub drain: DrainConfig,
}

impl Default for SchedulerConfig {
    fn default() -> (r: Self)
        ensures
            r.total_budget_tokens_per_sec == 100,
            r.burst_capacity == 200,
            r.scrub.interval_secs == 86400,
            r.scrub.tokens_per_extent == 1,
            r.repair.max_concurrent == 4,
            r.repair.tokens_per_repair == 10,
            r.rebalance.imbalance_threshold_bits == 0x3FB9_9999_9999_999A,
            r.rebalance.max_moves_per_pass == 100,
            r.rebalance.tokens_per_move == 5,
            r.rebalance.check_interval_secs == 300,
            r.drain.tokens_per_relocate == 5,
            r.drain.inter_relocate_delay_ms == 100,
    {
        SchedulerConfig {
            total_budget_tokens_per_sec: 100,
            burst_capacity: 200,
            scrub: ScrubConfig::default(),
            repair: RepairConfig::default(),
            rebalance: RebalanceConfig::default(),
            drain: DrainConfig::default(),
        }
    }
}

/// Scheduler status snapshot for observability.
#[derive(Clone, Copy, Debug)]
pub struct SchedulerStatus {
    /// Number of pending repair requests.
    pub repair_backlog: usize,
    /// Whether a drain operation is active.
    pub drain_active: bool,
    /// Number of disk scrub results available.
    pub scrub_results_count: usize,
    /// Whether a rebalance was planned.
    pub rebalance_planned: bool,
    /// Currently available IO budget tokens.
    pub available_tokens: u64,
}

/// Coordinated background task scheduler.
///
/// Manages scrub, repair, rebalance, and drain workers with a shared
/// rate-limited IO budget and priority ordering.
#[derive(Clone, Debug)]
pub struct BackgroundScheduler {
    pub config: SchedulerConfig,
    pub rate_limiter: TokenBucket,
    pub scrub_worker: ScrubWorker,
    pub repair_worker: RepairWorker,
    pub rebalance_worker: RebalanceWorker,
    pub drain_worker: DrainWorker,
}

impl BackgroundScheduler {
    /// The budget is kept and repairs are ordered.
    pub open spec fn wf(self) -> bool {
        self.rate_limiter.wf() && self.repair_worker.wf()
    }

    /// Create a new background scheduler with the given configuration.
    pub fn new(config: SchedulerConfig, now_ms: u64) -> (r: Self)
        ensures
            r.wf(),
            r.config == config,
            r.rate_limiter == (TokenBucket {
                capacity: config.burst_capacity,
                refill_rate: config.total_budget_tokens_per_sec,
                tokens: config.burst_capacity,
                last_refill_ms: now_ms,
            }),
            r.scrub_worker.config == config.scrub,
            r.scrub_worker.results@.len() == 0,
            r.repair_worker.config == config.repair,
            r.repair_worker.queue@.len() == 0,
            r.repair_worker.completed@.len() == 0,
            r.rebalance_worker.config == config.rebalance,
            r.rebalance_worker.last_plan is None,
            r.drain_worker.config == config.drain,
            r.drain_worker.progress is None,
    {
        BackgroundScheduler {
            config,
            rate_limiter: TokenBucket::new(
                config.burst_capacity,
                config.total_budget_tokens_per_sec,
                now_ms,
            ),
            scrub_worker: ScrubWorker::new(config.scrub),
            repair_worker: RepairWorker::new(config.repair),
            rebalance_worker: RebalanceWorker::new(config.rebalance),
            drain_worker: DrainWorker::new(config.drain),
        }
    }

    /// Get the shared rate limiter.
    pub fn rate_limiter(&self) -> (r: &TokenBucket)
        ensures
            *r == self.rate_limiter,
    {
        &self.rate_limiter
    }

    /// Get the scrub worker.
    pub fn scrub_worker(&self) -> (r: &ScrubWorker)
        ensures
            *r == self.scrub_worker,
    {
        &self.scrub_worker
    }

    /// Get the repair worker.
    pub fn repair_worker(&self) -> (r: &RepairWorker)
        ensures
            *r == self.repair_worker,
    {
        &self.repair_worker
    }

    /// Get the rebalance worker.
    pub fn rebalance_worker(&self) -> (r: &RebalanceWorker)
        ensures
            *r == self.rebalance_worker,
    {
        &self.rebalance_worker
    }

    /// Get the drain worker.
    pub fn drain_worker(&self) -> (r: &DrainWorker)
        ensures
            *r == self.drain_worker,
    {
        &self.drain_worker
    }

    /// Get the scheduler configuration.
    pub fn config(&self) -> (r: &SchedulerConfig)
        ensures
            *r == self.config,
    {
        &self.config
    }

    /// Get the current IO budget availability.
    pub fn available_budget(&mut self, now_ms: u64) -> (r: u64)
        requires
            old(self).wf(),
        ensures
            final(self).wf(),
            *final(self) == (BackgroundScheduler {
                rate_limiter: old(self).rate_limiter.refilled(now_ms),
                ..*old(self)
            }),
            r == old(self).rate_limiter.refilled(now_ms).tokens,
    {
        self.rate_limiter.available(now_ms)
    }

    /// Check the current workload status.
    pub fn status(&mut self, now_ms: u64) -> (r: SchedulerStatus)
        requires
            old(self).wf(),
        ensures
            final(self).wf(),
            *final(self) == (BackgroundScheduler {
                rate_limiter: old(self).rate_limiter.refilled(now_ms),
                ..*old(self)
            }),
            r.repair_backlog == old(self).repair_worker.queue@.len(),
            r.drain_active == (old(self).drain_worker.progress is Some),
            r.scrub_results_count == old(self).scrub_worker.results@.len(),
            r.rebalance_planned == (old(self).rebalance_worker.last_plan matches Some(plan)
                && plan.needed),
            r.available_tokens == old(self).rate_limiter.refilled(now_ms).tokens,
    {
        let available_tokens = self.available_budget(now_ms);
        SchedulerStatus {
            repair_backlog: self.repair_worker.queue_len(),
            drain_active: self.drain_worker.progress().is_some(),
            scrub_results_count: self.scrub_worker.last_results().len(),
            rebalance_planned: match self.rebalance_worker.last_plan() {
                Some(plan) => plan.needed,
                None => false,
            },
            available_tokens,
        }
    }
}

} // verus!
