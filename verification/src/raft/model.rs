//! The mathematical model of the cluster's metadata: what it holds, how each
//! request changes it, and what holds of every state.

use crate::ids::{DiskId, EpochId, ExtentId, NodeId, OperationId, SessionId, VolumeId};
use crate::raft::request::{BlockRange, ExtentMappingEntry, MetadataRequest};
use crate::raft::response::{Answer, LeaseAnswer};
use crate::collections::byte_views;
use crate::text::decimal;
use crate::types::{LeaseRequest, LeaseVersion, ProtectionPolicy, VolumeLease};
use vstd::prelude::*;

verus! {

/// Metadata for a single volume.
#[derive(Clone, Copy, Debug, PartialEq, Eq, Structural)]
pub struct VolumeMetadata {
    pub volume_id: VolumeId,
    pub size_bytes: u64,
    pub protection: ProtectionPolicy,
    pub created_at_epoch: EpochId,
}

/// A disk of the cluster.
#[derive(Clone, Copy, Debug, PartialEq, Eq, Structural)]
pub struct ClusterDisk {
    pub disk_id: DiskId,
    pub node_id: NodeId,
    pub capacity_bytes: u64,
    pub used_bytes: u64,
}

/// A node of the cluster.
pub struct NodeModel {
    pub node_id: NodeId,
    pub addr: Seq<char>,
}

/// A committed extent mapping.
pub struct MappingModel {
    pub extent_id: ExtentId,
    pub extent_version: u64,
    pub epoch: EpochId,
    pub block_range: BlockRange,
    pub replica_locations: Seq<NodeId>,
    pub checksums: Seq<Seq<u8>>,
    pub operation_id: Option<OperationId>,
}

/// The mapping that a batch entry asks for.
pub open spec fn entry_mapping(e: ExtentMappingEntry) -> MappingModel {
    MappingModel {
        extent_id: e.extent_id,
        extent_version: e.extent_version,
        epoch: e.epoch,
        block_range: e.block_range,
        replica_locations: e.replica_locations@,
        checksums: byte_views(e.checksums@),
        operation_id: e.operation_id,
    }
}

/// The placement map after the first assignments of a list, in order.
pub open spec fn assigned(
    placement: Map<Seq<char>, Seq<NodeId>>,
    assignments: Seq<(String, Vec<NodeId>)>,
) -> Map<Seq<char>, Seq<NodeId>>
    decreases assignments.len(),
{
    if assignments.len() == 0 {
        placement
    } else {
        assigned(placement, assignments.drop_last()).insert(
            assignments.last().0@,
            assignments.last().1@,
        )
    }
}

/// Why a mapping cannot be committed, if it cannot: the volume is not known, the
/// epoch is not the current one, or the mapping that is there does not have the
/// expected version (no mapping counts as version 0).
pub open spec fn commit_fault_given(
    volume_known: bool,
    current: EpochId,
    found: Option<u64>,
    volume_id: VolumeId,
    start: u64,
    epoch: EpochId,
    previous_version: Option<u64>,
) -> Option<Seq<char>> {
    if !volume_known {
        Some("volume "@ + volume_id.text() + " not found"@)
    } else if epoch != current {
        Some(
            "stale epoch: request has "@ + decimal(epoch.value as nat) + ", current is "@ + decimal(
                current.value as nat,
            ),
        )
    } else {
        match (previous_version, found) {
            (Some(expected), Some(version)) => if version != expected {
                Some(
                    "CAS failure: expected version "@ + decimal(expected as nat) + ", found "@
                        + decimal(version as nat),
                )
            } else {
                None
            },
            (Some(expected), None) => if expected != 0 {
                Some(
                    "CAS failure: no existing mapping at block "@ + decimal(start as nat)
                        + ", expected version "@ + decimal(expected as nat),
                )
            } else {
                None
            },
            (None, _) => None,
        }
    }
}

/// Whether a node has a consensus number.
pub open spec fn is_given_out(raft_ids: Map<u128, u64>, raft_id: u64) -> bool {
    exists|n: u128| #[trigger] raft_ids.contains_key(n) && raft_ids[n] == raft_id
}

/// The cluster's metadata.  Identifiers are represented by their values.
pub struct MetadataModel {
    /// The current placement epoch.
    pub epoch: EpochId,
    pub nodes: Map<u128, NodeModel>,
    pub volumes: Map<u128, VolumeMetadata>,
    /// The mappings of each volume, by the first block of their range.
    pub mappings: Map<u128, Map<u64, MappingModel>>,
    /// Volume and first block of the mapping that an operation committed.
    pub operation_index: Map<u128, (u128, u64)>,
    /// Volume and first block of the mapping with an extent version.
    pub version_index: Map<u64, (u128, u64)>,
    pub placement: Map<Seq<char>, Seq<NodeId>>,
    pub leases: Map<u128, VolumeLease>,
    /// The last lease version that was given out.
    pub lease_version_counter: LeaseVersion,
    /// The last consensus number that was given out.
    pub raft_id_counter: u64,
    pub raft_ids: Map<u128, u64>,
    pub disks: Map<u128, ClusterDisk>,
}

impl MetadataModel {
    /// The metadata of a new cluster.
    pub open spec fn initial() -> Self {
        MetadataModel {
            epoch: EpochId { value: 0 },
            nodes: Map::empty(),
            volumes: Map::empty(),
            mappings: Map::empty(),
            operation_index: Map::empty(),
            version_index: Map::empty(),
            placement: Map::empty(),
            leases: Map::empty(),
            lease_version_counter: 0,
            raft_id_counter: 0,
            raft_ids: Map::empty(),
            disks: Map::empty(),
        }
    }

    /// Whether a volume has a mapping that starts at a block.
    pub open spec fn has_mapping(self, volume: u128, start: u64) -> bool {
        self.mappings.contains_key(volume) && self.mappings[volume].contains_key(start)
    }

    /// What holds of every state: each record is stored under its own identifier;
    /// a volume has a table of mappings exactly while it exists; the indexes point
    /// at mappings that carry what they are indexed by; a lease is on an existing
    /// volume and has a version that was given out, which no other lease has; the
    /// consensus numbers are those up to the last that was given out, and no two nodes share
    /// one.
    pub open spec fn wf(self) -> bool {
        &&& forall|n: u128| #[trigger]
            self.nodes.contains_key(n) ==> self.nodes[n].node_id.value == n
        &&& forall|v: u128| #[trigger]
            self.volumes.contains_key(v) ==> self.volumes[v].volume_id.value == v
                && self.volumes[v].protection.is_valid() && self.volumes[v].created_at_epoch.value
                <= self.epoch.value
        &&& self.mappings.dom() == self.volumes.dom()
        &&& forall|v: u128, s: u64| #[trigger]
            self.has_mapping(v, s) ==> self.mappings[v][s].block_range.start == s
                && self.mappings[v][s].epoch.value <= self.epoch.value
        &&& forall|op: u128| #[trigger]
            self.operation_index.contains_key(op) ==> {
                let (v, s) = self.operation_index[op];
                self.has_mapping(v, s) && self.mappings[v][s].operation_id == Some(
                    OperationId { value: op },
                )
            }
        &&& forall|ver: u64| #[trigger]
            self.version_index.contains_key(ver) ==> {
                let (v, s) = self.version_index[ver];
                self.has_mapping(v, s) && self.mappings[v][s].extent_version == ver
            }
        &&& forall|v: u128| #[trigger]
            self.leases.contains_key(v) ==> {
                &&& self.volumes.contains_key(v)
                &&& self.leases[v].volume_id.value == v
                &&& 1 <= self.leases[v].lease_version <= self.lease_version_counter
            }
        &&& forall|v: u128, w: u128|
            #![trigger self.leases[v], self.leases[w]]
            self.leases.contains_key(v) && self.leases.contains_key(w) && v != w
                ==> self.leases[v].lease_version != self.leases[w].lease_version
        &&& forall|n: u128| #[trigger]
            self.raft_ids.contains_key(n) ==> 1 <= self.raft_ids[n] <= self.raft_id_counter
        &&& forall|n: u128, k: u128|
            #![trigger self.raft_ids[n], self.raft_ids[k]]
            self.raft_ids.contains_key(n) && self.raft_ids.contains_key(k) && n != k
                ==> self.raft_ids[n] != self.raft_ids[k]
        &&& forall|raft_id: u64|
            1 <= raft_id <= self.raft_id_counter ==> #[trigger] is_given_out(
                self.raft_ids,
                raft_id,
            )
        &&& forall|d: u128| #[trigger]
            self.disks.contains_key(d) ==> self.disks[d].disk_id.value == d
    }

    /// Whether every volume has a table of mappings: all that a request needs of the
    /// state.
    pub open spec fn has_tables(self) -> bool {
        forall|v: u128| #[trigger]
            self.volumes.contains_key(v) ==> self.mappings.contains_key(v)
    }

    /// The committed mapping that an operation brought, if it is still current.
    pub open spec fn lookup_operation(self, op: OperationId) -> Option<MappingModel> {
        if self.operation_index.contains_key(op.value) {
            let (v, s) = self.operation_index[op.value];
            if self.has_mapping(v, s) {
                Some(self.mappings[v][s])
            } else {
                None
            }
        } else {
            None
        }
    }

    /// The committed mapping with an extent version, if it is still current.
    pub open spec fn lookup_version(self, version: u64) -> Option<MappingModel> {
        if self.version_index.contains_key(version) {
            let (v, s) = self.version_index[version];
            if self.has_mapping(v, s) {
                Some(self.mappings[v][s])
            } else {
                None
            }
        } else {
            None
        }
    }

    /// The extent version of the mapping that starts at a block, if there is one.
    pub open spec fn version_at(self, volume: u128, start: u64) -> Option<u64> {
        if self.has_mapping(volume, start) {
            Some(self.mappings[volume][start].extent_version)
        } else {
            None
        }
    }

    /// Why a mapping cannot be committed in this state, if it cannot.
    pub open spec fn commit_fault(
        self,
        volume_id: VolumeId,
        start: u64,
        epoch: EpochId,
        previous_version: Option<u64>,
    ) -> Option<Seq<char>> {
        commit_fault_given(
            self.volumes.contains_key(volume_id.value),
            self.epoch,
            self.version_at(volume_id.value, start),
            volume_id,
            start,
            epoch,
            previous_version,
        )
    }

    /// The state with a mapping committed.  The mapping that it replaces leaves
    /// both indexes.
    pub open spec fn commit(self, volume_id: VolumeId, mapping: MappingModel) -> Self {
        let v = volume_id.value;
        let s = mapping.block_range.start;
        let kept_operations = if self.has_mapping(v, s) && self.mappings[v][s].operation_id is Some {
            self.operation_index.remove(self.mappings[v][s].operation_id->0.value)
        } else {
            self.operation_index
        };
        let kept_versions = if self.has_mapping(v, s) {
            self.version_index.remove(self.mappings[v][s].extent_version)
        } else {
            self.version_index
        };
        MetadataModel {
            mappings: self.mappings.insert(v, self.mappings[v].insert(s, mapping)),
            operation_index: if mapping.operation_id is Some {
                kept_operations.insert(mapping.operation_id->0.value, (v, s))
            } else {
                kept_operations
            },
            version_index: kept_versions.insert(mapping.extent_version, (v, s)),
            ..self
        }
    }

    /// The state after the entries of a batch in order, or the fault of the first
    /// entry that cannot be committed.
    pub open spec fn commit_batch(self, entries: Seq<ExtentMappingEntry>) -> Result<
        Self,
        Seq<char>,
    >
        decreases entries.len(),
    {
        if entries.len() == 0 {
            Ok(self)
        } else {
            match self.commit_batch(entries.drop_last()) {
                Err(fault) => Err(fault),
                Ok(m) => {
                    let e = entries.last();
                    match m.commit_fault(e.volume_id, e.block_range.start, e.epoch, e.previous_version) {
                        Some(fault) => Err(fault),
                        None => Ok(m.commit(e.volume_id, entry_mapping(e))),
                    }
                },
            }
        }
    }

    /// The operations that the mappings of a volume carry.
    pub open spec fn operations_of(self, volume: u128) -> Set<u128> {
        Set::new(
            |op: u128|
                exists|s: u64| #[trigger]
                    self.has_mapping(volume, s) && self.mappings[volume][s].operation_id == Some(
                        OperationId { value: op },
                    ),
        )
    }

    /// The extent versions of the mappings of a volume.
    pub open spec fn versions_of(self, volume: u128) -> Set<u64> {
        Set::new(
            |ver: u64|
                exists|s: u64| #[trigger]
                    self.has_mapping(volume, s) && self.mappings[volume][s].extent_version == ver,
        )
    }

    /// The state without a volume, its mappings, what the indexes say of them, and its lease.
    pub open spec fn without_volume(self, volume: u128) -> Self {
        MetadataModel {
            volumes: self.volumes.remove(volume),
            mappings: self.mappings.remove(volume),
            operation_index: self.operation_index.remove_keys(self.operations_of(volume)),
            version_index: self.version_index.remove_keys(self.versions_of(volume)),
            leases: self.leases.remove(volume),
            ..self
        }
    }

    /// Whether another session's lease on the volume is still running.
    pub open spec fn lease_blocks(self, volume: u128, session_id: SessionId, now_ms: u64) -> bool {
        self.leases.contains_key(volume) && !self.leases[volume].expired_at(now_ms)
            && self.leases[volume].holder != session_id
    }

    /// Why a session may not write under a lease version, if it may not.
    pub open spec fn lease_fault(
        self,
        volume_id: VolumeId,
        session_id: SessionId,
        lease_version: LeaseVersion,
        now_ms: u64,
    ) -> Option<Seq<char>> {
        let v = volume_id.value;
        if !self.leases.contains_key(v) {
            Some("no lease for volume "@ + volume_id.text())
        } else if self.leases[v].holder != session_id {
            Some(
                "lease for volume "@ + volume_id.text() + " held by session "@
                    + self.leases[v].holder.text() + ", not "@ + session_id.text(),
            )
        } else if self.leases[v].expired_at(now_ms) {
            Some("lease for volume "@ + volume_id.text() + " has expired"@)
        } else if self.leases[v].lease_version != lease_version {
            Some(
                "stale lease version: request has "@ + decimal(lease_version as nat)
                    + ", current is "@ + decimal(self.leases[v].lease_version as nat),
            )
        } else {
            None
        }
    }

    /// How a lease request changes the state, and the answer to it.
    pub open spec fn apply_lease(self, req: LeaseRequest) -> (Self, LeaseAnswer) {
        match req {
            LeaseRequest::Acquire { volume_id, session_id, now_ms, ttl_ms } => {
                let v = volume_id.value;
                if !self.volumes.contains_key(v) {
                    (
                        self,
                        LeaseAnswer::Denied {
                            reason: "volume "@ + volume_id.text() + " not found"@,
                        },
                    )
                } else if self.lease_blocks(v, session_id, now_ms) {
                    (
                        self,
                        LeaseAnswer::Denied {
                            reason: "volume "@ + volume_id.text() + " lease held by session "@
                                + self.leases[v].holder.text(),
                        },
                    )
                } else {
                    let version = (self.lease_version_counter + 1) as u64;
                    let expires_at_ms = (now_ms + ttl_ms) as u64;
                    (
                        MetadataModel {
                            leases: self.leases.insert(
                                v,
                                VolumeLease {
                                    volume_id,
                                    holder: session_id,
                                    granted_at_ms: now_ms,
                                    expires_at_ms,
                                    lease_version: version,
                                },
                            ),
                            lease_version_counter: version,
                            ..self
                        },
                        LeaseAnswer::Granted { lease_version: version, expires_at_ms },
                    )
                }
            },
            LeaseRequest::Renew { volume_id, session_id, now_ms, ttl_ms } => {
                let v = volume_id.value;
                if !self.leases.contains_key(v) {
                    (
                        self,
                        LeaseAnswer::Denied {
                            reason: "no lease exists for volume "@ + volume_id.text(),
                        },
                    )
                } else if self.leases[v].holder != session_id {
                    (
                        self,
                        LeaseAnswer::Denied {
                            reason: "lease for volume "@ + volume_id.text()
                                + " held by different session "@ + self.leases[v].holder.text(),
                        },
                    )
                } else if self.leases[v].expired_at(now_ms) {
                    (
                        self,
                        LeaseAnswer::Denied {
                            reason: "lease for volume "@ + volume_id.text()
                                + " has expired, must re-acquire"@,
                        },
                    )
                } else {
                    let version = (self.lease_version_counter + 1) as u64;
                    let expires_at_ms = (now_ms + ttl_ms) as u64;
                    (
                        MetadataModel {
                            leases: self.leases.insert(
                                v,
                                VolumeLease {
                                    expires_at_ms,
                                    lease_version: version,
                                    ..self.leases[v]
                                },
                            ),
                            lease_version_counter: version,
                            ..self
                        },
                        LeaseAnswer::Renewed { lease_version: version, expires_at_ms },
                    )
                }
            },
            LeaseRequest::Release { volume_id, session_id } => {
                let v = volume_id.value;
                if !self.leases.contains_key(v) {
                    (self, LeaseAnswer::Released)
                } else if self.leases[v].holder != session_id {
                    (
                        self,
                        LeaseAnswer::Denied {
                            reason: "cannot release lease for volume "@ + volume_id.text()
                                + ": held by different session"@,
                        },
                    )
                } else {
                    (
                        MetadataModel { leases: self.leases.remove(v), ..self },
                        LeaseAnswer::Released,
                    )
                }
            },
        }
    }

    /// The state with a node's record written.
    pub open spec fn with_node(self, node_id: NodeId, addr: Seq<char>) -> Self {
        MetadataModel {
            nodes: self.nodes.insert(node_id.value, NodeModel { node_id, addr }),
            ..self
        }
    }

    /// How a request changes the state, and the answer to it.
    pub open spec fn apply(self, req: MetadataRequest) -> (Self, Answer) {
        match req {
            MetadataRequest::AddNode { node_id, addr } => (
                self.with_node(node_id, addr@),
                Answer::Done,
            ),
            MetadataRequest::RemoveNode { node_id } => if self.nodes.contains_key(node_id.value) {
                (
                    MetadataModel { nodes: self.nodes.remove(node_id.value), ..self },
                    Answer::Done,
                )
            } else {
                (self, Answer::Error("node "@ + node_id.text() + " not found"@))
            },
            MetadataRequest::CreateVolume { volume_id, size_bytes, protection } => {
                let v = volume_id.value;
                if self.volumes.contains_key(v) {
                    (self, Answer::Error("volume "@ + volume_id.text() + " already exists"@))
                } else if !protection.is_valid() {
                    (self, Answer::Error("invalid protection policy: "@ + protection.fault()))
                } else {
                    (
                        MetadataModel {
                            volumes: self.volumes.insert(
                                v,
                                VolumeMetadata {
                                    volume_id,
                                    size_bytes,
                                    protection,
                                    created_at_epoch: self.epoch,
                                },
                            ),
                            mappings: self.mappings.insert(v, Map::empty()),
                            ..self
                        },
                        Answer::Done,
                    )
                }
            },
            MetadataRequest::DeleteVolume { volume_id } => if self.volumes.contains_key(
                volume_id.value,
            ) {
                (self.without_volume(volume_id.value), Answer::Done)
            } else {
                (self, Answer::Error("volume "@ + volume_id.text() + " not found"@))
            },
            MetadataRequest::AdvanceEpoch => {
                let next = EpochId {
                    value: if self.epoch.value < u64::MAX {
                        (self.epoch.value + 1) as u64
                    } else {
                        u64::MAX
                    },
                };
                (MetadataModel { epoch: next, ..self }, Answer::Epoch(next))
            },
            MetadataRequest::CommitExtentMapping {
                volume_id,
                block_range,
                extent_id,
                extent_version,
                epoch,
                replica_locations,
                checksums,
                operation_id,
                previous_version,
            } => match self.commit_fault(volume_id, block_range.start, epoch, previous_version) {
                Some(fault) => (self, Answer::Error(fault)),
                None => (
                    self.commit(
                        volume_id,
                        MappingModel {
                            extent_id,
                            extent_version,
                            epoch,
                            block_range,
                            replica_locations: replica_locations@,
                            checksums: byte_views(checksums@),
                            operation_id,
                        },
                    ),
                    Answer::Epoch(self.epoch),
                ),
            },
            MetadataRequest::CommitExtentMappingBatch { mappings } => match self.commit_batch(
                mappings@,
            ) {
                Err(fault) => (self, Answer::Error(fault)),
                Ok(m) => (m, Answer::Epoch(self.epoch)),
            },
            MetadataRequest::UpdatePlacementMap { assignments } => (
                MetadataModel { placement: assigned(self.placement, assignments@), ..self },
                Answer::Done,
            ),
            MetadataRequest::Lease(lease_req) => {
                let (m, answer) = self.apply_lease(lease_req);
                (m, Answer::Lease(answer))
            },
            MetadataRequest::RegisterNode { node_id, addr } => {
                let n = node_id.value;
                if self.raft_ids.contains_key(n) {
                    (
                        self.with_node(node_id, addr@),
                        Answer::NodeRegistered(self.raft_ids[n]),
                    )
                } else {
                    let raft_id = (self.raft_id_counter + 1) as u64;
                    (
                        MetadataModel {
                            raft_id_counter: raft_id,
                            raft_ids: self.raft_ids.insert(n, raft_id),
                            ..self.with_node(node_id, addr@)
                        },
                        Answer::NodeRegistered(raft_id),
                    )
                }
            },
            MetadataRequest::RegisterDisk { disk_id, node_id, capacity_bytes } => {
                let d = disk_id.value;
                let used_bytes = if self.disks.contains_key(d) {
                    self.disks[d].used_bytes
                } else {
                    0
                };
                (
                    MetadataModel {
                        disks: self.disks.insert(
                            d,
                            ClusterDisk { disk_id, node_id, capacity_bytes, used_bytes },
                        ),
                        ..self
                    },
                    Answer::DiskRegistered,
                )
            },
            MetadataRequest::UpdateDiskUsage { disk_id, used_bytes } => {
                let d = disk_id.value;
                if self.disks.contains_key(d) {
                    (
                        MetadataModel {
                            disks: self.disks.insert(
                                d,
                                ClusterDisk { used_bytes, ..self.disks[d] },
                            ),
                            ..self
                        },
                        Answer::Done,
                    )
                } else {
                    (self, Answer::Error("disk "@ + disk_id.text() + " not found"@))
                }
            },
            MetadataRequest::DeregisterDisk { disk_id } => if self.disks.contains_key(
                disk_id.value,
            ) {
                (
                    MetadataModel { disks: self.disks.remove(disk_id.value), ..self },
                    Answer::Done,
                )
            } else {
                (self, Answer::Error("disk "@ + disk_id.text() + " not found"@))
            },
            MetadataRequest::CleanupExpiredLeases { now_ms } => (
                MetadataModel {
                    leases: self.leases.remove_keys(
                        Set::new(
                            |v: u128|
                                self.leases.contains_key(v) && self.leases[v].expired_at(now_ms),
                        ),
                    ),
                    ..self
                },
                Answer::Done,
            ),
        }
    }

    /// Whether the numbers that a request makes fit: a lease version or a consensus
    /// number that has to be given out, and the time at which a lease runs out.
    pub open spec fn fits(self, req: MetadataRequest) -> bool {
        match req {
            MetadataRequest::Lease(lease_req) => self.lease_fits(lease_req),
            MetadataRequest::RegisterNode { node_id, .. } => self.raft_ids.contains_key(
                node_id.value,
            ) || self.raft_id_counter < u64::MAX,
            _ => true,
        }
    }

    /// [`Self::fits`] of a lease request.
    pub open spec fn lease_fits(self, req: LeaseRequest) -> bool {
        match req {
            LeaseRequest::Acquire { volume_id, session_id, now_ms, ttl_ms } => {
                self.volumes.contains_key(volume_id.value) && !self.lease_blocks(
                    volume_id.value,
                    session_id,
                    now_ms,
                ) ==> self.lease_version_counter < u64::MAX && now_ms + ttl_ms <= u64::MAX
            },
            LeaseRequest::Renew { volume_id, session_id, now_ms, ttl_ms } => {
                let v = volume_id.value;
                self.leases.contains_key(v) && self.leases[v].holder == session_id
                    && !self.leases[v].expired_at(now_ms) ==> self.lease_version_counter < u64::MAX
                    && now_ms + ttl_ms <= u64::MAX
            },
            LeaseRequest::Release { .. } => true,
        }
    }
}

} // verus!
