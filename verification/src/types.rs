//! Types shared by the metadata and the storage side.

use crate::ids::{SessionId, VolumeId};
use vstd::prelude::*;

verus! {

/// A number that grows with every grant or renewal of a lease.
pub type LeaseVersion = u64;

/// Identifies a consensus group.
pub type RaftGroupId = u64;

/// The number under which a node takes part in consensus.
pub type RaftNodeId = u64;

/// The life cycle of a disk.
#[derive(Clone, Copy, Debug, PartialEq, Eq, Structural, Hash)]
pub enum DiskState {
    Healthy,
    Suspect,
    Degraded,
    Draining,
    Failed,
    Removed,
}

impl DiskState {
    /// Which changes of state are legal: a disk in service may get worse, recover,
    /// be drained or fail; a draining disk may fail or leave; a failed disk can
    /// only leave; a removed disk stays removed.
    pub open spec fn can_become(self, to: DiskState) -> bool {
        match self {
            DiskState::Healthy => to is Suspect || to is Degraded || to is Draining
                || to is Failed,
            DiskState::Suspect => to is Healthy || to is Degraded || to is Draining
                || to is Failed,
            DiskState::Degraded => to is Healthy || to is Suspect || to is Draining
                || to is Failed,
            DiskState::Draining => to is Failed || to is Removed,
            DiskState::Failed => to is Removed,
            DiskState::Removed => false,
        }
    }

    /// Whether new extents may be placed on a disk in this state.
    pub open spec fn takes_extents(self) -> bool {
        self is Healthy || self is Suspect
    }

    /// Whether extents may be read from a disk in this state.
    pub open spec fn serves_reads(self) -> bool {
        !(self is Failed || self is Removed)
    }

    /// The state's name.
    pub open spec fn text(self) -> Seq<char> {
        match self {
            DiskState::Healthy => "healthy"@,
            DiskState::Suspect => "suspect"@,
            DiskState::Degraded => "degraded"@,
            DiskState::Draining => "draining"@,
            DiskState::Failed => "failed"@,
            DiskState::Removed => "removed"@,
        }
    }

    /// Whether the change from this state to `to` is legal.
    pub fn validate_transition(&self, to: DiskState) -> (r: Result<(), ()>)
        ensures
            r is Ok <==> self.can_become(to),
    {
        let ok = match *self {
            DiskState::Healthy => matches!(
                to,
                DiskState::Suspect | DiskState::Degraded | DiskState::Draining | DiskState::Failed
            ),
            DiskState::Suspect => matches!(
                to,
                DiskState::Healthy | DiskState::Degraded | DiskState::Draining | DiskState::Failed
            ),
            DiskState::Degraded => matches!(
                to,
                DiskState::Healthy | DiskState::Suspect | DiskState::Draining | DiskState::Failed
            ),
            DiskState::Draining => matches!(to, DiskState::Failed | DiskState::Removed),
            DiskState::Failed => matches!(to, DiskState::Removed),
            DiskState::Removed => false,
        };
        if ok {
            Ok(())
        } else {
            Err(())
        }
    }

    /// Whether new extents may be placed on a disk in this state.
    pub fn allows_allocation(&self) -> (r: bool)
        ensures
            r == self.takes_extents(),
            r == (*self is Healthy || *self is Suspect),
    {
        matches!(*self, DiskState::Healthy | DiskState::Suspect)
    }

    /// Whether extents may be read from a disk in this state.
    pub fn allows_reads(&self) -> (r: bool)
        ensures
            r == self.serves_reads(),
            r == !(*self is Failed || *self is Removed),
    {
        !matches!(*self, DiskState::Failed | DiskState::Removed)
    }

    /// The state's name.
    pub fn to_text(&self) -> (s: String)
        ensures
            s@ == self.text(),
    {
        let s = match *self {
            DiskState::Healthy => "healthy",
            DiskState::Suspect => "suspect",
            DiskState::Degraded => "degraded",
            DiskState::Draining => "draining",
            DiskState::Failed => "failed",
            DiskState::Removed => "removed",
        };
        s.to_owned()
    }
}

/// A disk changes its state exactly so: one in service (healthy, suspect or degraded) may
/// turn to any other state but removed, a draining one may fail or be removed, a failed one
/// may be removed, and nothing else; in particular no disk that was drained, has failed or
/// was removed comes back into service.
pub proof fn disks_leave_service_for_good(from: DiskState, to: DiskState)
    ensures
        from.can_become(to) <==> from != to && match from {
            DiskState::Draining => to is Failed || to is Removed,
            DiskState::Failed => to is Removed,
            DiskState::Removed => false,
            _ => !(to is Removed),
        },
        from.can_become(to) && (to is Healthy || to is Suspect || to is Degraded) ==> from is Healthy
            || from is Suspect || from is Degraded,
{
}

/// New extents go only to healthy and suspect disks, and reads to all but failed and removed
/// ones.
pub proof fn disks_serve_by_their_state(state: DiskState)
    ensures
        state.takes_extents() <==> state == DiskState::Healthy || state == DiskState::Suspect,
        state.serves_reads() <==> state != DiskState::Failed && state != DiskState::Removed,
        state.takes_extents() ==> state.serves_reads(),
{
}

/// No two states of a disk have the same name.
pub proof fn disk_state_names_are_distinct(a: DiskState, b: DiskState)
    requires
        a.text() == b.text(),
    ensures
        a == b,
{
    reveal_strlit("healthy");
    reveal_strlit("suspect");
    reveal_strlit("degraded");
    reveal_strlit("draining");
    reveal_strlit("failed");
    reveal_strlit("removed");
    assert("healthy"@[0] == 'h');
    assert("suspect"@[0] == 's');
    assert("degraded"@[1] == 'e');
    assert("draining"@[1] == 'r');
    assert("failed"@[0] == 'f');
    assert("removed"@[0] == 'r');
    assert("degraded"@[0] == 'd');
    assert("draining"@[0] == 'd');
}

/// How a volume's data survives the loss of nodes.
#[derive(Clone, Copy, Debug, PartialEq, Eq, Structural, Hash)]
pub enum ProtectionPolicy {
    /// Every extent is stored `replicas` times.
    Replicated { replicas: u32 },
    /// Every extent is cut into data chunks, and parity chunks are added.
    ErasureCoded { data_chunks: u32, parity_chunks: u32 },
}

impl ProtectionPolicy {
    /// Whether the policy asks for at least one copy, or for at least one chunk of each kind.
    pub open spec fn is_valid(self) -> bool {
        match self {
            ProtectionPolicy::Replicated { replicas } => replicas >= 1,
            ProtectionPolicy::ErasureCoded { data_chunks, parity_chunks } => data_chunks >= 1
                && parity_chunks >= 1,
        }
    }

    /// What is wrong with an invalid policy.
    pub open spec fn fault(self) -> Seq<char> {
        match self {
            ProtectionPolicy::Replicated { .. } => "replicas must be at least 1"@,
            ProtectionPolicy::ErasureCoded { data_chunks, .. } => if data_chunks < 1 {
                "data_chunks must be at least 1"@
            } else {
                "parity_chunks must be at least 1"@
            },
        }
    }

    /// Checks the policy; the error says what is wrong with it.
    pub fn validate(&self) -> (r: Result<(), String>)
        ensures
            r is Ok <==> self.is_valid(),
            r matches Err(e) ==> e@ == self.fault(),
    {
        match *self {
            ProtectionPolicy::Replicated { replicas } => {
                if replicas < 1 {
                    return Err("replicas must be at least 1".to_owned());
                }
            },
            ProtectionPolicy::ErasureCoded { data_chunks, parity_chunks } => {
                if data_chunks < 1 {
                    return Err("data_chunks must be at least 1".to_owned());
                }
                if parity_chunks < 1 {
                    return Err("parity_chunks must be at least 1".to_owned());
                }
            },
        }
        Ok(())
    }
}

/// A policy is valid exactly where it asks for at least one copy, or for at least one data
/// chunk and one parity chunk.
pub proof fn policies_ask_for_something(policy: ProtectionPolicy)
    ensures
        policy.is_valid() <==> match policy {
            ProtectionPolicy::Replicated { replicas } => replicas != 0,
            ProtectionPolicy::ErasureCoded { data_chunks, parity_chunks } => data_chunks != 0
                && parity_chunks != 0,
        },
{
}

/// A volume's write lease.
#[derive(Clone, Copy, Debug, PartialEq, Eq, Structural)]
pub struct VolumeLease {
    pub volume_id: VolumeId,
    pub holder: SessionId,
    pub granted_at_ms: u64,
    pub expires_at_ms: u64,
    pub lease_version: LeaseVersion,
}

impl VolumeLease {
    /// Whether the lease has run out.
    pub open spec fn expired_at(self, now_ms: u64) -> bool {
        now_ms >= self.expires_at_ms
    }

    /// Whether the lease has run out.
    pub fn is_expired(&self, now_ms: u64) -> (r: bool)
        ensures
            r == self.expired_at(now_ms),
            r == (self.expires_at_ms <= now_ms),
    {
        now_ms >= self.expires_at_ms
    }

    /// Whether the session holds the lease.
    pub fn is_held_by(&self, session_id: SessionId) -> (r: bool)
        ensures
            r == (self.holder == session_id),
    {
        self.holder == session_id
    }
}

/// What a session asks of a volume's lease.
#[derive(Clone, Copy, Debug, PartialEq, Eq, Structural)]
pub enum LeaseRequest {
    Acquire { volume_id: VolumeId, session_id: SessionId, now_ms: u64, ttl_ms: u64 },
    Renew { volume_id: VolumeId, session_id: SessionId, now_ms: u64, ttl_ms: u64 },
    Release { volume_id: VolumeId, session_id: SessionId },
}

/// The answer to a [`LeaseRequest`].
#[derive(Clone, Debug, PartialEq, Eq)]
pub enum LeaseResponse {
    Granted { lease_version: LeaseVersion, expires_at_ms: u64 },
    Renewed { lease_version: LeaseVersion, expires_at_ms: u64 },
    Released,
    Denied { reason: String },
}

/// The failures that the system reports to its callers.
#[derive(Clone, Debug, PartialEq, Eq)]
pub enum Error {
    Raft(String),
    Auth(String),
    Storage(String),
    VolumeNotFound(String),
}

impl Error {
    /// What the error says.
    pub open spec fn text(self) -> Seq<char> {
        match self {
            Error::Raft(msg) => "raft error: "@ + msg@,
            Error::Auth(msg) => "auth error: "@ + msg@,
            Error::Storage(msg) => "storage error: "@ + msg@,
            Error::VolumeNotFound(msg) => "volume not found: "@ + msg@,
        }
    }

    /// What the error says.
    pub fn to_text(&self) -> (s: String)
        ensures
            s@ == self.text(),
    {
        match self {
            Error::Raft(msg) => crate::text::join2("raft error: ", msg.as_str()),
            Error::Auth(msg) => crate::text::join2("auth error: ", msg.as_str()),
            Error::Storage(msg) => crate::text::join2("storage error: ", msg.as_str()),
            Error::VolumeNotFound(msg) => crate::text::join2("volume not found: ", msg.as_str()),
        }
    }
}

/// The health of a node as its peers see it.
#[derive(Clone, Copy, Debug, PartialEq, Eq, Structural, Hash)]
pub enum NodeState {
    Healthy,
    Suspect,
    Failed,
    Draining,
    Drained,
}

/// The health of a storage pool.
#[derive(Clone, Copy, Debug, PartialEq, Eq, Structural, Hash)]
pub enum ZfsHealthState {
    Online,
    Degraded,
    Faulted,
}

/// What placement and rebalancing read of a node.
#[derive(Clone, Debug)]
pub struct NodeInfo {
    pub id: RaftNodeId,
    pub tags: Vec<(String, String)>,
    pub state: NodeState,
    pub zfs_health: ZfsHealthState,
    pub capacity_bytes: u64,
    pub used_bytes: u64,
}

} // verus!
