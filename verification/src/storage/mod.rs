//! The storage engine of a data node.

pub mod backend;
pub mod background;
pub mod disk;
pub mod drain;
pub mod ec_placement;
pub mod ec_reconstruct;
pub mod erasure;
pub mod error;
pub mod extent;
pub mod failure;
pub mod grouping;
pub mod health;
pub mod placement;
pub mod ranking;
pub mod rebalance;
pub mod region;
