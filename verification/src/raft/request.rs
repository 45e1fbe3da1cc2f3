//! Requests to the metadata state machine.

use crate::ids::{DiskId, EpochId, ExtentId, NodeId, OperationId, VolumeId};
use crate::types::{LeaseRequest, ProtectionPolicy};
use vstd::prelude::*;

verus! {

/// The blocks from `start` up to, but not including, `end`.
#[derive(Clone, Copy, Debug, PartialEq, Eq, Structural)]
pub struct BlockRange {
    pub start: u64,
    pub end: u64,
}

impl BlockRange {
    /// The blocks from `start` up to, but not including, `end`.
    pub fn new(start: u64, end: u64) -> (r: Self)
        ensures
            r.start == start,
            r.end == end,
    {
        BlockRange { start, end }
    }
}

/// One extent mapping of a batch commit.
#[derive(Clone, Debug)]
pub struct ExtentMappingEntry {
    pub volume_id: VolumeId,
    pub block_range: BlockRange,
    pub extent_id: ExtentId,
    pub extent_version: u64,
    pub epoch: EpochId,
    pub replica_locations: Vec<NodeId>,
    pub checksums: Vec<Vec<u8>>,
    pub operation_id: Option<OperationId>,
    pub previous_version: Option<u64>,
}

/// A request to be applied to the metadata state machine via Raft consensus.
#[derive(Clone, Debug)]
pub enum MetadataRequest {
    /// Add or update a node in the cluster membership.
    AddNode { node_id: NodeId, addr: String },
    /// Remove a node from the cluster membership.
    RemoveNode { node_id: NodeId },
    /// Create a new volume with the given protection policy.
    CreateVolume { volume_id: VolumeId, size_bytes: u64, protection: ProtectionPolicy },
    /// Delete a volume and all its extent mappings.
    DeleteVolume { volume_id: VolumeId },
    /// Advance the placement epoch, returning the new epoch value.
    AdvanceEpoch,
    /// Commit an extent mapping.
    CommitExtentMapping {
        volume_id: VolumeId,
        block_range: BlockRange,
        extent_id: ExtentId,
        extent_version: u64,
        epoch: EpochId,
        replica_locations: Vec<NodeId>,
        checksums: Vec<Vec<u8>>,
        operation_id: Option<OperationId>,
        /// Previous mapping version for compare-and-swap.
        previous_version: Option<u64>,
    },
    /// Commit several extent mappings at once: either all succeed or none does.
    CommitExtentMappingBatch { mappings: Vec<ExtentMappingEntry> },
    /// Assign lists of nodes to placement keys, in the given order.
    UpdatePlacementMap { assignments: Vec<(String, Vec<NodeId>)> },
    /// Acquire, renew, or release a volume write lease.
    Lease(LeaseRequest),
    /// Register a node and assign it a consensus number.
    RegisterNode { node_id: NodeId, addr: String },
    /// Register a disk in the cluster metadata.
    RegisterDisk { disk_id: DiskId, node_id: NodeId, capacity_bytes: u64 },
    /// Update the used bytes for a registered disk.
    UpdateDiskUsage { disk_id: DiskId, used_bytes: u64 },
    /// Deregister a disk from the cluster metadata.
    DeregisterDisk { disk_id: DiskId },
    /// Remove all expired leases from the state machine.
    CleanupExpiredLeases { now_ms: u64 },
}

} // verus!
