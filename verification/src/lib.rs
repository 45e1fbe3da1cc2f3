//! Blockyard: distributed block storage, as a verified library.
//!
//! The library holds the decisions of the system: the replicated metadata
//! state machine, extent placement, erasure coding, disk and volume life
//! cycles, and the planning done by the background workers.  Every function
//! states in its contract what it returns or changes.

pub mod collections;
pub mod ids;
pub mod name_map;
pub mod raft;
pub mod storage;
pub mod text;
pub mod types;
