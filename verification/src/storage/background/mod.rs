//! Background operations for data node maintenance: scrubbing, repair, drain, rebalance,
//! and coordinated scheduling with rate-limited IO budgets.

pub mod rate_limit;
pub mod repair;
pub mod drain;
pub mod scrub;
pub mod rebalance;
pub mod scheduler;
