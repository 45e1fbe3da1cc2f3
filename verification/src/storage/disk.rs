//! Disk inventory, discovery, and persistent identity.
//!
//! Keeps what is known of each physical disk: its persistent [`DiskId`], where it is
//! mounted, its state and qualification, its telemetry and its bad regions.  What the
//! file system says of a mount path is handed in.

use crate::ids::{is_version_4, DiskId, NodeId};
use crate::storage::error::StorageError;
use crate::storage::extent::{join_path, path_join};
use crate::storage::health::{DiskHealthTracker, DiskTelemetry, HealthPolicy};
use crate::storage::region::{any_meets, BadRegion, BadRegionMap};
use crate::collections::sorted_ids;
use crate::text::{join2, join3, join4, join5, same_text};
use crate::types::DiskState;
use std::collections::BTreeMap;
use vstd::prelude::*;

verus! {

broadcast use vstd::std_specs::btree::group_btree_axioms;

/// Name of the file that holds a disk's identity, below its mount path.
pub const DISK_ID_FILENAME: &'static str = ".blockyard_disk_id";

/// Persistent metadata stored on each managed disk.
#[derive(Clone, Copy, Debug, PartialEq, Eq, Structural)]
pub struct DiskMetadata {
    pub disk_id: DiskId,
    pub node_id: Option<NodeId>,
}

impl DiskMetadata {
    /// Whether the disk is bound to another node than the one that asks for it.
    pub open spec fn is_bound_elsewhere(self, node_id: Option<NodeId>) -> bool {
        self.node_id is Some && node_id is Some && self.node_id != node_id
    }
}

/// What is said of a disk that is bound to another node than the one that asks for it.
pub open spec fn says_bound(id_path: Seq<char>, bound: NodeId, asking: NodeId) -> Seq<char> {
    "disk ID file at "@ + id_path + " is bound to node "@ + bound.text() + ", not "@
        + asking.text()
}

/// Qualification state for newly added disks.
#[derive(Clone, Copy, Debug, PartialEq, Eq, Structural)]
pub enum QualificationState {
    Pending,
    /// Burn-in runs since the given time, in milliseconds on the caller's clock.
    BurnInRunning { started_at_ms: u64 },
    Qualified,
}

/// Runtime information for a single managed disk.
#[derive(Clone, Debug)]
pub struct ManagedDisk {
    pub disk_id: DiskId,
    pub mount_path: String,
    pub state: DiskState,
    pub qualification: QualificationState,
    pub health: DiskHealthTracker,
    pub bad_regions: BadRegionMap,
}

impl ManagedDisk {
    /// Whether the disk has just been added: nothing observed, no bad regions.
    pub open spec fn is_fresh(self, disk_id: DiskId, mount_path: Seq<char>) -> bool {
        &&& self.disk_id == disk_id
        &&& self.mount_path@ == mount_path
        &&& self.health == (DiskHealthTracker {
            disk_id,
            cumulative: DiskTelemetry::none(),
            policy: HealthPolicy::standard(),
        })
        &&& self.bad_regions.disk_id == disk_id
        &&& self.bad_regions.regions@ == Seq::<BadRegion>::empty()
    }

    /// A disk that is put into service at once.
    pub fn new(disk_id: DiskId, mount_path: String) -> (r: Self)
        ensures
            r.is_fresh(disk_id, mount_path@),
            r.state == DiskState::Healthy,
            r.qualification == QualificationState::Qualified,
    {
        ManagedDisk {
            disk_id,
            mount_path,
            state: DiskState::Healthy,
            qualification: QualificationState::Qualified,
            health: DiskHealthTracker::new(disk_id),
            bad_regions: BadRegionMap::new(disk_id),
        }
    }

    /// A disk that has to be qualified first.
    pub fn new_qualifying(disk_id: DiskId, mount_path: String) -> (r: Self)
        ensures
            r.is_fresh(disk_id, mount_path@),
            r.state == DiskState::Suspect,
            r.qualification == QualificationState::Pending,
    {
        ManagedDisk {
            disk_id,
            mount_path,
            state: DiskState::Suspect,
            qualification: QualificationState::Pending,
            health: DiskHealthTracker::new(disk_id),
            bad_regions: BadRegionMap::new(disk_id),
        }
    }

    /// The disk after a telemetry snapshot: what was recorded adds up, and the state
    /// becomes the derived one where there is one and the change is legal.
    pub open spec fn after_telemetry(self, telemetry: DiskTelemetry) -> Self {
        let health = DiskHealthTracker {
            cumulative: self.health.cumulative.plus(telemetry),
            ..self.health
        };
        let state = match health.derived() {
            Some(derived) => if derived != self.state && self.state.can_become(derived) {
                derived
            } else {
                self.state
            },
            None => self.state,
        };
        ManagedDisk { health, state, ..self }
    }

    /// The disk with its qualification completed: a suspect disk becomes healthy.
    pub open spec fn after_qualification(self) -> Self {
        if self.qualification is Qualified {
            self
        } else {
            ManagedDisk {
                qualification: QualificationState::Qualified,
                state: if self.state is Suspect {
                    DiskState::Healthy
                } else {
                    self.state
                },
                ..self
            }
        }
    }
}

/// Whether an error says that a disk is not known.
pub open spec fn says_unknown(e: StorageError, disk_id: DiskId) -> bool {
    e is DiskNotFound && e.detail() == "unknown disk: "@ + disk_id.text()
}

fn unknown_disk(disk_id: DiskId) -> (e: StorageError)
    ensures
        says_unknown(e, disk_id),
{
    StorageError::DiskNotFound(join2("unknown disk: ", disk_id.to_text().as_str()))
}

/// What the file system says of the type of a mounted file system.
#[derive(Clone, Debug)]
pub enum FsProbe {
    /// The path could not be examined, for the given reason.
    NoStat(String),
    /// The type of the file system.
    Detected(String),
    /// The type could not be determined.
    Undetermined,
}

/// Whether the value of `BLOCKYARD_SKIP_XFS_CHECK` switches the check of the file
/// system's type off.
pub fn skips_xfs_check(value: Option<&str>) -> (r: bool)
    ensures
        r == (value is Some && value->0@ == "1"@),
{
    match value {
        Some(v) => same_text(v, "1"),
        None => false,
    }
}

/// The end of the complaint about a file system that is not the required one.
pub open spec fn override_hint() -> Seq<char> {
    "Use .blockyard_xfs_ok marker file or BLOCKYARD_SKIP_XFS_CHECK=1 to override."@
}

/// Validate that a path is on an XFS filesystem.
///
/// Accepted where the check is switched off, where a marker file is there, or where the
/// file system is XFS.
pub fn validate_xfs(path: &str, check_off: bool, marker: bool, probe: &FsProbe) -> (r: Result<
    (),
    StorageError,
>)
    ensures
        match r {
            Ok(_) => check_off || marker || (*probe is Detected && probe->Detected_0@ == "xfs"@),
            Err(e) => {
                &&& !check_off
                &&& !marker
                &&& e is XfsValidation
                &&& match *probe {
                    FsProbe::NoStat(reason) => e.detail() == "cannot stat "@ + path@ + ": "@
                        + reason@,
                    FsProbe::Detected(fs) => fs@ != "xfs"@ && e.detail() == path@
                        + " is not an XFS filesystem (detected: '"@ + fs@ + "'). "@
                        + override_hint(),
                    FsProbe::Undetermined => e.detail()
                        == "could not determine filesystem type for "@ + path@ + ". "@
                        + override_hint(),
                }
            },
        },
{
    if check_off || marker {
        return Ok(());
    }
    let hint = "Use .blockyard_xfs_ok marker file or BLOCKYARD_SKIP_XFS_CHECK=1 to override.";
    match probe {
        FsProbe::NoStat(reason) => Err(
            StorageError::XfsValidation(join4("cannot stat ", path, ": ", reason.as_str())),
        ),
        FsProbe::Detected(fs) => {
            if same_text(fs.as_str(), "xfs") {
                Ok(())
            } else {
                Err(
                    StorageError::XfsValidation(
                        join5(
                            path,
                            " is not an XFS filesystem (detected: '",
                            fs.as_str(),
                            "'). ",
                            hint,
                        ),
                    ),
                )
            }
        },
        FsProbe::Undetermined => Err(
            StorageError::XfsValidation(
                join4("could not determine filesystem type for ", path, ". ", hint),
            ),
        ),
    }
}

/// What the file with a disk's identity holds.
#[derive(Clone, Debug)]
pub enum IdentityFile {
    Missing,
    /// It cannot be read, for the given reason.
    Unreadable(String),
    /// It cannot be understood, for the given reason.
    Corrupt(String),
    Holds(DiskMetadata),
}

/// What to do about a disk's identity.
#[derive(Clone, Copy, Debug, PartialEq, Eq, Structural)]
pub enum Identity {
    /// The disk is known by this identifier.
    Known(DiskId),
    /// The disk gets this metadata, which has to be written to it.
    Assigned(DiskMetadata),
}

/// Read or assign the persistent identity of a disk, whose identity file is at `id_path`.
///
/// The node that is stored with the identity prevents another node from claiming the same
/// disk.
pub fn read_or_assign_disk_id(id_path: &str, file: &IdentityFile, node_id: Option<NodeId>) -> (r:
    Result<Identity, StorageError>)
    ensures
        *file matches IdentityFile::Holds(stored) ==> (r is Err <==> stored.node_id is Some
            && node_id is Some && stored.node_id->0.value != node_id->0.value),
        match *file {
            IdentityFile::Holds(metadata) => if metadata.is_bound_elsewhere(node_id) {
                r matches Err(e) && e is DiskIdentity && e.detail() == says_bound(
                    id_path@,
                    metadata.node_id->0,
                    node_id->0,
                )
            } else {
                r == Ok::<Identity, StorageError>(Identity::Known(metadata.disk_id))
            },
            IdentityFile::Missing => r matches Ok(Identity::Assigned(metadata))
                && metadata.node_id == node_id && is_version_4(metadata.disk_id.value),
            IdentityFile::Unreadable(reason) => r matches Err(e) && e is DiskIdentity && e.detail()
                == "failed to read disk ID from "@ + id_path@ + ": "@ + reason@,
            IdentityFile::Corrupt(reason) => r matches Err(e) && e is DiskIdentity && e.detail()
                == "corrupt disk ID file at "@ + id_path@ + ": "@ + reason@,
        },
{
    match file {
        IdentityFile::Holds(metadata) => {
            match (metadata.node_id, node_id) {
                (Some(bound), Some(asking)) => {
                    if bound != asking {
                        let head = join4(
                            "disk ID file at ",
                            id_path,
                            " is bound to node ",
                            bound.to_text().as_str(),
                        );
                        return Err(
                            StorageError::DiskIdentity(
                                join3(head.as_str(), ", not ", asking.to_text().as_str()),
                            ),
                        );
                    }
                },
                _ => {},
            }
            Ok(Identity::Known(metadata.disk_id))
        },
        IdentityFile::Missing => Ok(
            Identity::Assigned(DiskMetadata { disk_id: DiskId::generate(), node_id }),
        ),
        IdentityFile::Unreadable(reason) => Err(
            StorageError::DiskIdentity(
                join4("failed to read disk ID from ", id_path, ": ", reason.as_str()),
            ),
        ),
        IdentityFile::Corrupt(reason) => Err(
            StorageError::DiskIdentity(
                join4("corrupt disk ID file at ", id_path, ": ", reason.as_str()),
            ),
        ),
    }
}

/// What the file system shows of a mount path.
#[derive(Clone, Debug)]
pub struct MountProbe {
    pub path: String,
    /// Whether the path is a directory.
    pub is_dir: bool,
    /// Whether the check of the file system's type is switched off.
    pub check_off: bool,
    /// Whether there is a marker file that makes up for the type.
    pub marker: bool,
    pub fs: FsProbe,
    /// The file with the disk's identity.
    pub identity: IdentityFile,
}

impl MountProbe {
    /// Whether the file system is accepted.
    pub open spec fn has_accepted_fs(self) -> bool {
        self.check_off || self.marker || (self.fs is Detected && self.fs->Detected_0@ == "xfs"@)
    }

    /// The path of the file with the disk's identity.
    pub open spec fn id_path_text(self) -> Seq<char> {
        path_join(self.path@, ".blockyard_disk_id"@)
    }

    /// The path of the file with the disk's identity.
    pub fn id_path(&self) -> (r: String)
        ensures
            r@ == self.id_path_text(),
    {
        join_path(self.path.as_str(), DISK_ID_FILENAME)
    }

    /// Identifies the disk at the mount path: the path has to be a directory on an
    /// accepted file system, and the disk must not be bound to another node.
    pub fn identify(&self, node_id: Option<NodeId>) -> (r: Result<Identity, StorageError>)
        ensures
            r is Ok <==> {
                &&& self.is_dir
                &&& self.check_off || self.marker || (self.fs is Detected && self.fs->Detected_0@
                    == "xfs"@)
                &&& self.identity is Missing || (self.identity matches IdentityFile::Holds(stored)
                    && (stored.node_id is None || node_id is None || stored.node_id->0.value
                    == node_id->0.value))
            },
            if !self.is_dir {
                r matches Err(e) && e is DiskNotFound && e.detail()
                    == "mount path does not exist or is not a directory: "@ + self.path@
            } else if !self.has_accepted_fs() {
                r matches Err(e) && e is XfsValidation && match self.fs {
                    FsProbe::NoStat(reason) => e.detail() == "cannot stat "@ + self.path@ + ": "@
                        + reason@,
                    FsProbe::Detected(fs) => e.detail() == self.path@
                        + " is not an XFS filesystem (detected: '"@ + fs@ + "'). "@
                        + override_hint(),
                    FsProbe::Undetermined => e.detail()
                        == "could not determine filesystem type for "@ + self.path@ + ". "@
                        + override_hint(),
                }
            } else {
                match self.identity {
                    IdentityFile::Holds(metadata) => if metadata.is_bound_elsewhere(node_id) {
                        r matches Err(e) && e is DiskIdentity && e.detail() == says_bound(
                            self.id_path_text(),
                            metadata.node_id->0,
                            node_id->0,
                        )
                    } else {
                        r == Ok::<Identity, StorageError>(Identity::Known(metadata.disk_id))
                    },
                    IdentityFile::Missing => r matches Ok(Identity::Assigned(metadata))
                        && metadata.node_id == node_id && is_version_4(metadata.disk_id.value),
                    IdentityFile::Unreadable(reason) => r matches Err(e) && e is DiskIdentity
                        && e.detail() == "failed to read disk ID from "@ + self.id_path_text()
                        + ": "@ + reason@,
                    IdentityFile::Corrupt(reason) => r matches Err(e) && e is DiskIdentity
                        && e.detail() == "corrupt disk ID file at "@ + self.id_path_text() + ": "@
                        + reason@,
                }
            },
    {
        if !self.is_dir {
            return Err(
                StorageError::DiskNotFound(
                    join2(
                        "mount path does not exist or is not a directory: ",
                        self.path.as_str(),
                    ),
                ),
            );
        }
        match validate_xfs(self.path.as_str(), self.check_off, self.marker, &self.fs) {
            Ok(_) => {},
            Err(e) => {
                return Err(e);
            },
        }
        read_or_assign_disk_id(self.id_path().as_str(), &self.identity, node_id)
    }
}

/// The identifier of a disk, once the metadata that was assigned to it was written, or
/// could not be.
pub fn settle_identity(identity: Identity, id_path: &str, written: Result<(), String>) -> (r:
    Result<DiskId, StorageError>)
    ensures
        match identity {
            Identity::Known(id) => r == Ok::<DiskId, StorageError>(id),
            Identity::Assigned(metadata) => match written {
                Ok(_) => r == Ok::<DiskId, StorageError>(metadata.disk_id),
                Err(reason) => r matches Err(e) && e is DiskIdentity && e.detail()
                    == "failed to write disk ID to "@ + id_path@ + ": "@ + reason@,
            },
        },
{
    match identity {
        Identity::Known(id) => Ok(id),
        Identity::Assigned(metadata) => match written {
            Ok(_) => Ok(metadata.disk_id),
            Err(reason) => Err(
                StorageError::DiskIdentity(
                    join4("failed to write disk ID to ", id_path, ": ", reason.as_str()),
                ),
            ),
        },
    }
}

/// A mount path and the disk that was found there, or why none was.
#[derive(Debug)]
pub struct FoundDisk {
    pub path: String,
    pub found: Result<DiskId, StorageError>,
}

/// Whether the disk at a mount path is refused: none was found, or it is registered
/// already, at the latest under an earlier mount path.
pub open spec fn is_refused(disks: Map<u128, ManagedDisk>, mounts: Seq<FoundDisk>, i: int) -> bool {
    match mounts[i].found {
        Err(_) => true,
        Ok(id) => disks.contains_key(id.value) || exists|j: int|
            0 <= j < i && (#[trigger] mounts[j]).found == Ok::<DiskId, StorageError>(id),
    }
}

/// Whether a disk is as it is when it has just been registered.
pub open spec fn just_registered(
    disk: ManagedDisk,
    id: DiskId,
    path: Seq<char>,
    require_qualification: bool,
) -> bool {
    &&& disk.is_fresh(id, path)
    &&& disk.state == (if require_qualification {
        DiskState::Suspect
    } else {
        DiskState::Healthy
    })
    &&& disk.qualification == (if require_qualification {
        QualificationState::Pending
    } else {
        QualificationState::Qualified
    })
}

/// Whether the disks at the first mount paths, and no other ones, were registered.
pub open spec fn registers(
    before: Map<u128, ManagedDisk>,
    after: Map<u128, ManagedDisk>,
    mounts: Seq<FoundDisk>,
    count: int,
    require_qualification: bool,
) -> bool {
    &&& forall|d: u128| #[trigger] before.contains_key(d) ==> after.contains_key(d) && after[d] == before[d]
    &&& forall|d: u128| #[trigger]
        after.contains_key(d) ==> before.contains_key(d) || exists|j: int|
            0 <= j < count && (#[trigger] mounts[j]).found == Ok::<DiskId, StorageError>(
                DiskId { value: d },
            )
    &&& forall|j: int|
        0 <= j < count ==> {
            &&& (#[trigger] mounts[j]).found matches Ok(id) && after.contains_key(id.value)
                && just_registered(after[id.value], id, mounts[j].path@, require_qualification)
        }
}

/// Central disk inventory tracking all managed disks, keyed by the value of their
/// identifier.
#[derive(Clone, Debug)]
pub struct DiskInventory {
    pub disks: BTreeMap<u128, ManagedDisk>,
}

impl Default for DiskInventory {
    fn default() -> (r: Self)
        ensures
            r.disks@ == Map::<u128, ManagedDisk>::empty(),
    {
        Self::new()
    }
}

impl DiskInventory {
    /// Every disk stands under its own identifier.
    pub open spec fn wf(&self) -> bool {
        forall|d: u128| #[trigger]
            self.disks@.contains_key(d) ==> self.disks@[d].disk_id.value == d
                && self.disks@[d].bad_regions.wf()
    }

    /// Whether a disk takes new extents: its state allows it and it is qualified.
    pub open spec fn takes_extents(&self, disk: u128) -> bool {
        self.disks@.contains_key(disk) && self.disks@[disk].state.takes_extents()
            && self.disks@[disk].qualification is Qualified
    }

    /// Whether a disk serves reads.
    pub open spec fn serves_reads(&self, disk: u128) -> bool {
        self.disks@.contains_key(disk) && self.disks@[disk].state.serves_reads()
    }

    /// No disks.
    pub fn new() -> (r: Self)
        ensures
            r.disks@ == Map::<u128, ManagedDisk>::empty(),
            r.wf(),
    {
        DiskInventory { disks: BTreeMap::new() }
    }

    /// Registers a disk at a mount path; it must not be registered yet.
    pub fn register(&mut self, disk_id: DiskId, path: &str, require_qualification: bool) -> (r:
        Result<DiskId, StorageError>)
        ensures
            old(self).wf() ==> final(self).wf(),
            if old(self).disks@.contains_key(disk_id.value) {
                &&& final(self).disks@ == old(self).disks@
                &&& r matches Err(e) && e is DuplicateDisk && e.detail() == "disk "@
                    + disk_id.text() + " already registered"@
            } else {
                let disk = final(self).disks@[disk_id.value];
                &&& r == Ok::<DiskId, StorageError>(disk_id)
                &&& final(self).disks@ == old(self).disks@.insert(disk_id.value, disk)
                &&& just_registered(disk, disk_id, path@, require_qualification)
            },
    {
        if self.disks.contains_key(&disk_id.value) {
            return Err(
                StorageError::DuplicateDisk(
                    join3("disk ", disk_id.to_text().as_str(), " already registered"),
                ),
            );
        }
        let managed = if require_qualification {
            ManagedDisk::new_qualifying(disk_id, path.to_owned())
        } else {
            ManagedDisk::new(disk_id, path.to_owned())
        };
        self.disks.insert(disk_id.value, managed);
        Ok(disk_id)
    }

    /// Registers the disks that were found at several mount paths, up to the first one
    /// that is refused.
    pub fn discover_disks(&mut self, mounts: Vec<FoundDisk>, require_qualification: bool) -> (r:
        Result<Vec<DiskId>, StorageError>)
        ensures
            old(self).wf() ==> final(self).wf(),
            match r {
                Ok(ids) => {
                    &&& ids@.len() == mounts@.len()
                    &&& forall|i: int|
                        0 <= i < mounts@.len() ==> !#[trigger] is_refused(
                            old(self).disks@,
                            mounts@,
                            i,
                        ) && mounts@[i].found == Ok::<DiskId, StorageError>(ids@[i])
                    &&& registers(
                        old(self).disks@,
                        final(self).disks@,
                        mounts@,
                        mounts@.len() as int,
                        require_qualification,
                    )
                },
                Err(e) => exists|n: int|
                    {
                        &&& 0 <= n < mounts@.len()
                        &&& #[trigger] is_refused(old(self).disks@, mounts@, n)
                        &&& forall|i: int|
                            0 <= i < n ==> !#[trigger] is_refused(old(self).disks@, mounts@, i)
                        &&& registers(
                            old(self).disks@,
                            final(self).disks@,
                            mounts@,
                            n,
                            require_qualification,
                        )
                        &&& match mounts@[n].found {
                            Err(fault) => e == fault,
                            Ok(id) => e is DuplicateDisk && e.detail() == "disk "@ + id.text()
                                + " already registered"@,
                        }
                    },
            },
    {
        let ghost all = mounts@;
        let ghost before = self.disks@;
        let mut ids: Vec<DiskId> = Vec::new();
        for mount in it: mounts
            invariant
                it.seq() == all,
                all == mounts@,
                before == old(self).disks@,
                ids@.len() == it.index(),
                old(self).wf() ==> self.wf(),
                forall|i: int| 0 <= i < ids@.len() ==> !#[trigger] is_refused(before, all, i),
                forall|i: int|
                    0 <= i < ids@.len() ==> all[i].found == Ok::<DiskId, StorageError>(
                        #[trigger] ids@[i],
                    ),
                registers(before, self.disks@, all, it.index() as int, require_qualification),
        {
            let ghost n = it.index() as int;
            let ghost known = self.disks@;
            let ghost had = ids@;
            assert(all[n] == mount);
            let disk_id = match mount.found {
                Ok(id) => id,
                Err(e) => {
                    assert(is_refused(before, all, n));
                    return Err(e);
                },
            };
            match self.register(disk_id, mount.path.as_str(), require_qualification) {
                Ok(id) => {
                    ids.push(id);
                    proof {
                        assert(ids@ == had.push(disk_id));
                        assert(all[n].found == Ok::<DiskId, StorageError>(ids@[n]));
                        assert forall|i: int| 0 <= i < n implies all[i].found == Ok::<
                            DiskId,
                            StorageError,
                        >(#[trigger] ids@[i]) by {
                            assert(!is_refused(before, all, i));
                            assert(ids@[i] == had[i]);
                        }
                        assert(!is_refused(before, all, n)) by {
                            if exists|j: int|
                                0 <= j < n && (#[trigger] all[j]).found == Ok::<
                                    DiskId,
                                    StorageError,
                                >(disk_id) {
                                let j = choose|j: int|
                                    0 <= j < n && (#[trigger] all[j]).found == Ok::<
                                        DiskId,
                                        StorageError,
                                    >(disk_id);
                                assert(known.contains_key(disk_id.value));
                            }
                        }
                        assert forall|d: u128| #[trigger]
                            self.disks@.contains_key(d) implies before.contains_key(d) || exists|
                            j: int,
                        |
                            0 <= j < n + 1 && (#[trigger] all[j]).found == Ok::<
                                DiskId,
                                StorageError,
                            >(DiskId { value: d }) by {
                            if d == disk_id.value {
                                assert(all[n].found == Ok::<DiskId, StorageError>(
                                    DiskId { value: d },
                                ));
                            } else {
                                assert(known.contains_key(d));
                            }
                        }
                        assert forall|j: int| 0 <= j < n + 1 implies {
                            &&& (#[trigger] all[j]).found matches Ok(id) && self.disks@.contains_key(
                                id.value,
                            ) && just_registered(
                                self.disks@[id.value],
                                id,
                                all[j].path@,
                                require_qualification,
                            )
                        } by {
                            if j < n {
                                assert(known.contains_key(all[j].found->Ok_0.value));
                            }
                        }
                    }
                },
                Err(e) => {
                    proof {
                        assert(known.contains_key(disk_id.value));
                        if !before.contains_key(disk_id.value) {
                            let j = choose|j: int|
                                0 <= j < n && (#[trigger] all[j]).found == Ok::<
                                    DiskId,
                                    StorageError,
                                >(DiskId { value: disk_id.value });
                            assert(all[j].found == Ok::<DiskId, StorageError>(disk_id));
                        }
                        assert(is_refused(before, all, n));
                    }
                    return Err(e);
                },
            }
        }
        Ok(ids)
    }

    /// Transition a disk's state, validating the transition is legal.
    pub fn transition_state(&mut self, disk_id: DiskId, new_state: DiskState) -> (r: Result<
        DiskState,
        StorageError,
    >)
        ensures
            old(self).wf() ==> final(self).wf(),
            if !old(self).disks@.contains_key(disk_id.value) {
                &&& r is Err
                &&& says_unknown(r->Err_0, disk_id)
                &&& final(self).disks@ == old(self).disks@
            } else {
                let disk = old(self).disks@[disk_id.value];
                if disk.state.can_become(new_state) {
                    &&& r == Ok::<DiskState, StorageError>(disk.state)
                    &&& final(self).disks@ == old(self).disks@.insert(
                        disk_id.value,
                        ManagedDisk { state: new_state, ..disk },
                    )
                } else {
                    &&& r is Err
                    &&& r->Err_0 is InvalidTransition
                    &&& r->Err_0.detail() == disk.state.text() + " -> "@ + new_state.text()
                    &&& final(self).disks@ == old(self).disks@
                }
            },
    {
        match self.disks.remove(&disk_id.value) {
            None => {
                assert(self.disks@ =~= old(self).disks@);
                Err(unknown_disk(disk_id))
            },
            Some(disk) => {
                let mut disk = disk;
                let old_state = disk.state;
                let legal = old_state.validate_transition(new_state).is_ok();
                if legal {
                    disk.state = new_state;
                }
                self.disks.insert(disk_id.value, disk);
                if legal {
                    assert(self.disks@ =~= old(self).disks@.insert(disk_id.value, disk));
                    Ok(old_state)
                } else {
                    assert(self.disks@ =~= old(self).disks@);
                    Err(
                        StorageError::InvalidTransition(
                            join3(
                                old_state.to_text().as_str(),
                                " -> ",
                                new_state.to_text().as_str(),
                            ),
                        ),
                    )
                }
            },
        }
    }

    /// Check whether a disk allows new extent allocations.
    pub fn allows_allocation(&self, disk_id: DiskId) -> (r: Result<bool, StorageError>)
        ensures
            match r {
                Ok(v) => self.disks@.contains_key(disk_id.value) && v == self.takes_extents(disk_id.value),
                Err(e) => !self.disks@.contains_key(disk_id.value) && says_unknown(e, disk_id),
            },
            r matches Ok(v) ==> {
                let disk = self.disks@[disk_id.value];
                v <==> (disk.state is Healthy || disk.state is Suspect)
                    && disk.qualification is Qualified
            },
    {
        match self.disks.get(&disk_id.value) {
            Some(disk) => Ok(disk.state.allows_allocation() && matches!(disk.qualification, QualificationState::Qualified)),
            None => Err(unknown_disk(disk_id)),
        }
    }

    /// Check whether a disk allows reads.
    pub fn allows_reads(&self, disk_id: DiskId) -> (r: Result<bool, StorageError>)
        ensures
            match r {
                Ok(v) => self.disks@.contains_key(disk_id.value) && v == self.serves_reads(disk_id.value),
                Err(e) => !self.disks@.contains_key(disk_id.value) && says_unknown(e, disk_id),
            },
            r matches Ok(v) ==> {
                let disk = self.disks@[disk_id.value];
                v <==> !(disk.state is Failed || disk.state is Removed)
            },
    {
        match self.disks.get(&disk_id.value) {
            Some(disk) => Ok(disk.state.allows_reads()),
            None => Err(unknown_disk(disk_id)),
        }
    }

    /// Get the current state of a disk.
    pub fn get_state(&self, disk_id: DiskId) -> (r: Result<DiskState, StorageError>)
        ensures
            match r {
                Ok(v) => self.disks@.contains_key(disk_id.value) && v == self.disks@[disk_id.value].state,
                Err(e) => !self.disks@.contains_key(disk_id.value) && says_unknown(e, disk_id),
            },
    {
        match self.disks.get(&disk_id.value) {
            Some(disk) => Ok(disk.state),
            None => Err(unknown_disk(disk_id)),
        }
    }

    /// Get the mount path for a disk.
    pub fn get_mount_path(&self, disk_id: DiskId) -> (r: Result<String, StorageError>)
        ensures
            match r {
                Ok(v) => self.disks@.contains_key(disk_id.value) && v@ == self.disks@[disk_id.value].mount_path@,
                Err(e) => !self.disks@.contains_key(disk_id.value) && says_unknown(e, disk_id),
            },
    {
        match self.disks.get(&disk_id.value) {
            Some(disk) => Ok(disk.mount_path.clone()),
            None => Err(unknown_disk(disk_id)),
        }
    }

    /// Get the qualification state for a disk.
    pub fn get_qualification(&self, disk_id: DiskId) -> (r: Result<QualificationState, StorageError>)
        ensures
            match r {
                Ok(v) => self.disks@.contains_key(disk_id.value) && v == self.disks@[disk_id.value].qualification,
                Err(e) => !self.disks@.contains_key(disk_id.value) && says_unknown(e, disk_id),
            },
    {
        match self.disks.get(&disk_id.value) {
            Some(disk) => Ok(disk.qualification),
            None => Err(unknown_disk(disk_id)),
        }
    }

    /// Check whether a region on a disk is quarantined.
    pub fn is_region_quarantined(&self, disk_id: DiskId, offset: u64, length: u64) -> (r: Result<bool, StorageError>)
        ensures
            match r {
                Ok(v) => self.disks@.contains_key(disk_id.value) && v == any_meets(self.disks@[disk_id.value].bad_regions.regions@, offset, length),
                Err(e) => !self.disks@.contains_key(disk_id.value) && says_unknown(e, disk_id),
            },
    {
        match self.disks.get(&disk_id.value) {
            Some(disk) => Ok(disk.bad_regions.overlaps(offset, length)),
            None => Err(unknown_disk(disk_id)),
        }
    }

    /// Check whether a disk has any quarantined bad regions.
    pub fn has_bad_regions(&self, disk_id: DiskId) -> (r: Result<bool, StorageError>)
        ensures
            match r {
                Ok(v) => self.disks@.contains_key(disk_id.value) && v == (self.disks@[disk_id.value].bad_regions.regions@.len() > 0),
                Err(e) => !self.disks@.contains_key(disk_id.value) && says_unknown(e, disk_id),
            },
    {
        match self.disks.get(&disk_id.value) {
            Some(disk) => Ok(disk.bad_regions.count() > 0),
            None => Err(unknown_disk(disk_id)),
        }
    }

    /// List all known disk IDs, each once, in order.
    pub fn list_disks(&self) -> (r: Vec<DiskId>)
        ensures
            r@.len() == self.disks@.len(),
            forall|d: u128| #[trigger]
                self.disks@.contains_key(d) <==> r@.contains(DiskId { value: d }),
            forall|i: int, j: int|
                0 <= i < j < r@.len() ==> (#[trigger] r@[i]).value < (#[trigger] r@[j]).value,
    {
        let keys = sorted_ids(&self.disks);
        let mut r: Vec<DiskId> = Vec::new();
        let mut i: usize = 0;
        while i < keys.len()
            invariant
                i <= keys@.len(),
                r@.len() == i,
                forall|j: int| 0 <= j < i ==> (#[trigger] r@[j]).value == keys@[j],
            decreases keys@.len() - i,
        {
            r.push(DiskId::new(keys[i]));
            i = i + 1;
        }
        assert forall|d: u128| #[trigger]
            self.disks@.contains_key(d) <==> r@.contains(DiskId { value: d }) by {
            if self.disks@.contains_key(d) {
                let k = choose|k: int| 0 <= k < keys@.len() && keys@[k] == d;
                assert(r@[k] == DiskId { value: d });
            }
            if r@.contains(DiskId { value: d }) {
                let k = choose|k: int| 0 <= k < r@.len() && r@[k] == (DiskId { value: d });
                assert(keys@[k] == d);
                assert(keys@.contains(d));
            }
        }
        r
    }

    /// Record telemetry event for a disk and potentially update its state.
    pub fn record_telemetry(&mut self, disk_id: DiskId, telemetry: &DiskTelemetry) -> (r: Result<
        (),
        StorageError,
    >)
        requires
            old(self).disks@.contains_key(disk_id.value) ==> {
                let seen = old(self).disks@[disk_id.value].health.cumulative;
                seen.adds_up(*telemetry) && seen.plus(*telemetry).hard_errors() <= u64::MAX
            },
        ensures
            old(self).wf() ==> final(self).wf(),
            if old(self).disks@.contains_key(disk_id.value) {
                &&& r is Ok
                &&& final(self).disks@ == old(self).disks@.insert(
                    disk_id.value,
                    old(self).disks@[disk_id.value].after_telemetry(*telemetry),
                )
            } else {
                &&& r is Err
                &&& says_unknown(r->Err_0, disk_id)
                &&& final(self).disks@ == old(self).disks@
            },
    {
        match self.disks.remove(&disk_id.value) {
            None => {
                assert(self.disks@ =~= old(self).disks@);
                Err(unknown_disk(disk_id))
            },
            Some(disk) => {
                let mut disk = disk;
                disk.health.record(telemetry);
                match disk.health.derive_state() {
                    Some(derived) => {
                        if derived != disk.state && disk.state.validate_transition(
                            derived,
                        ).is_ok() {
                            disk.state = derived;
                        }
                    },
                    None => {},
                }
                self.disks.insert(disk_id.value, disk);
                assert(self.disks@ =~= old(self).disks@.insert(disk_id.value, disk));
                Ok(())
            },
        }
    }

    /// Complete qualification (burn-in) for a disk, transitioning it to healthy.
    pub fn complete_qualification(&mut self, disk_id: DiskId) -> (r: Result<(), StorageError>)
        ensures
            old(self).wf() ==> final(self).wf(),
            if old(self).disks@.contains_key(disk_id.value) {
                &&& r is Ok
                &&& final(self).disks@ == old(self).disks@.insert(
                    disk_id.value,
                    old(self).disks@[disk_id.value].after_qualification(),
                )
            } else {
                &&& r is Err
                &&& says_unknown(r->Err_0, disk_id)
                &&& final(self).disks@ == old(self).disks@
            },
    {
        match self.disks.remove(&disk_id.value) {
            None => {
                assert(self.disks@ =~= old(self).disks@);
                Err(unknown_disk(disk_id))
            },
            Some(disk) => {
                let mut disk = disk;
                if !matches!(disk.qualification, QualificationState::Qualified) {
                    disk.qualification = QualificationState::Qualified;
                    if matches!(disk.state, DiskState::Suspect) {
                        disk.state = DiskState::Healthy;
                    }
                }
                self.disks.insert(disk_id.value, disk);
                assert(self.disks@ =~= old(self).disks@.insert(disk_id.value, disk));
                Ok(())
            },
        }
    }

    /// Start burn-in for a disk that is in Pending qualification state.
    pub fn start_burn_in(&mut self, disk_id: DiskId, now_ms: u64) -> (r: Result<(), StorageError>)
        ensures
            old(self).wf() ==> final(self).wf(),
            if !old(self).disks@.contains_key(disk_id.value) {
                &&& r is Err
                &&& says_unknown(r->Err_0, disk_id)
                &&& final(self).disks@ == old(self).disks@
            } else {
                let disk = old(self).disks@[disk_id.value];
                if disk.qualification is Pending {
                    &&& r is Ok
                    &&& final(self).disks@ == old(self).disks@.insert(
                        disk_id.value,
                        ManagedDisk {
                            qualification: QualificationState::BurnInRunning {
                                started_at_ms: now_ms,
                            },
                            ..disk
                        },
                    )
                } else {
                    &&& r is Err
                    &&& r->Err_0 is InvalidTransition
                    &&& r->Err_0.detail() == "disk "@ + disk_id.text()
                        + " not in pending qualification state"@
                    &&& final(self).disks@ == old(self).disks@
                }
            },
    {
        match self.disks.remove(&disk_id.value) {
            None => {
                assert(self.disks@ =~= old(self).disks@);
                Err(unknown_disk(disk_id))
            },
            Some(disk) => {
                let mut disk = disk;
                let pending = matches!(disk.qualification, QualificationState::Pending);
                if pending {
                    disk.qualification =
                    QualificationState::BurnInRunning { started_at_ms: now_ms };
                }
                self.disks.insert(disk_id.value, disk);
                if pending {
                    assert(self.disks@ =~= old(self).disks@.insert(disk_id.value, disk));
                    Ok(())
                } else {
                    assert(self.disks@ =~= old(self).disks@);
                    Err(
                        StorageError::InvalidTransition(
                            join3(
                                "disk ",
                                disk_id.to_text().as_str(),
                                " not in pending qualification state",
                            ),
                        ),
                    )
                }
            },
        }
    }

    /// Report bad regions for a disk.
    pub fn report_bad_region(&mut self, disk_id: DiskId, offset: u64, length: u64) -> (r: Result<
        (),
        StorageError,
    >)
        ensures
            old(self).wf() ==> final(self).wf(),
            if old(self).disks@.contains_key(disk_id.value) {
                let before = old(self).disks@[disk_id.value];
                let after = final(self).disks@[disk_id.value];
                &&& r is Ok
                &&& after.bad_regions.regions@ == (if length == 0 {
                    before.bad_regions.regions@
                } else {
                    before.bad_regions.regions@.push(BadRegion { offset, length })
                })
                &&& after.bad_regions.disk_id == before.bad_regions.disk_id
                &&& final(self).disks@ == old(self).disks@.insert(
                    disk_id.value,
                    ManagedDisk { bad_regions: after.bad_regions, ..before },
                )
            } else {
                &&& r is Err
                &&& says_unknown(r->Err_0, disk_id)
                &&& final(self).disks@ == old(self).disks@
            },
    {
        match self.disks.remove(&disk_id.value) {
            None => {
                assert(self.disks@ =~= old(self).disks@);
                Err(unknown_disk(disk_id))
            },
            Some(disk) => {
                let mut disk = disk;
                disk.bad_regions.add_region(offset, length);
                self.disks.insert(disk_id.value, disk);
                assert(self.disks@ =~= old(self).disks@.insert(disk_id.value, disk));
                Ok(())
            },
        }
    }
}

/// A disk that is not qualified takes no extents, and completing the qualification of a
/// new disk makes it take them.
pub proof fn qualification_opens_a_disk(disk: ManagedDisk)
    requires
        disk.qualification is Pending,
        disk.state is Suspect,
    ensures
        disk.after_qualification().state.takes_extents(),
        disk.after_qualification().qualification is Qualified,
        disk.after_qualification().after_qualification() == disk.after_qualification(),
{
}

/// Whatever a disk's burn-in says, completing its qualification makes it qualified, and
/// healthy where it was only suspect; a disk that is qualified already, and everything else
/// about any disk, stays.
pub proof fn qualification_changes_nothing_else(disk: ManagedDisk)
    ensures
        ({
            let after = disk.after_qualification();
            &&& after.qualification is Qualified
            &&& disk.qualification is Qualified ==> after == disk
            &&& !(disk.qualification is Qualified) && disk.state is Suspect ==> after.state
                == DiskState::Healthy
            &&& !(disk.state is Suspect) ==> after.state == disk.state
            &&& after.disk_id == disk.disk_id
            &&& after.mount_path == disk.mount_path
            &&& after.health == disk.health
            &&& after.bad_regions == disk.bad_regions
        }),
{
}

/// A disk whose errors of all kinds reach the policy's threshold fails, whatever state in
/// service or draining it is in; one that reaches a lower threshold turns to the state that
/// stands for it, if it is in service; without either it stays as it is. What was recorded
/// adds up, and nothing else about the disk changes.
pub proof fn telemetry_takes_bad_disks_out_of_service(disk: ManagedDisk, telemetry: DiskTelemetry)
    requires
        disk.health.cumulative.read_errors + telemetry.read_errors <= u64::MAX,
        disk.health.cumulative.write_errors + telemetry.write_errors <= u64::MAX,
        disk.health.cumulative.checksum_mismatches + telemetry.checksum_mismatches <= u64::MAX,
        disk.health.cumulative.media_errors + telemetry.media_errors <= u64::MAX,
        disk.health.cumulative.timeouts + telemetry.timeouts <= u64::MAX,
    ensures
        ({
            let after = disk.after_telemetry(telemetry);
            let seen = after.health.cumulative;
            let policy = disk.health.policy;
            let errors = disk.health.cumulative.read_errors + telemetry.read_errors
                + disk.health.cumulative.write_errors + telemetry.write_errors
                + disk.health.cumulative.checksum_mismatches + telemetry.checksum_mismatches
                + disk.health.cumulative.media_errors + telemetry.media_errors;
            let temperature = if telemetry.temperature_celsius is Some {
                telemetry.temperature_celsius
            } else {
                disk.health.cumulative.temperature_celsius
            };
            let failed = errors >= policy.failed_error_threshold || (temperature is Some
                && temperature->0 >= policy.temperature_critical_celsius);
            let degraded = errors >= policy.degraded_error_threshold;
            let suspect = errors >= policy.suspect_error_threshold || (temperature is Some
                && temperature->0 >= policy.temperature_warning_celsius);
            let in_service = disk.state is Healthy || disk.state is Suspect || disk.state is Degraded;
            &&& after.state == (if failed && (in_service || disk.state is Draining) {
                DiskState::Failed
            } else if failed || !in_service {
                disk.state
            } else if degraded {
                DiskState::Degraded
            } else if suspect {
                DiskState::Suspect
            } else {
                disk.state
            })
            &&& seen.read_errors == disk.health.cumulative.read_errors + telemetry.read_errors
            &&& seen.write_errors == disk.health.cumulative.write_errors + telemetry.write_errors
            &&& seen.checksum_mismatches == disk.health.cumulative.checksum_mismatches
                + telemetry.checksum_mismatches
            &&& seen.media_errors == disk.health.cumulative.media_errors + telemetry.media_errors
            &&& seen.timeouts == disk.health.cumulative.timeouts + telemetry.timeouts
            &&& seen.temperature_celsius == temperature
            &&& after.health.policy == policy
            &&& after.health.disk_id == disk.health.disk_id
            &&& after.disk_id == disk.disk_id
            &&& after.mount_path == disk.mount_path
            &&& after.qualification == disk.qualification
            &&& after.bad_regions == disk.bad_regions
        }),
{
}

/// A disk that was just registered has no errors and no bad regions; where qualification is
/// required it is suspect and pending, so that it takes no extents, and otherwise it is
/// healthy and takes them at once.
pub proof fn registered_disks_start_clean(
    disk: ManagedDisk,
    id: DiskId,
    path: Seq<char>,
    require_qualification: bool,
)
    requires
        just_registered(disk, id, path, require_qualification),
    ensures
        disk.disk_id == id,
        disk.mount_path@ == path,
        disk.bad_regions.regions@.len() == 0,
        disk.health.cumulative.read_errors == 0,
        disk.health.cumulative.write_errors == 0,
        disk.health.cumulative.checksum_mismatches == 0,
        disk.health.cumulative.media_errors == 0,
        disk.health.cumulative.timeouts == 0,
        disk.health.cumulative.temperature_celsius is None,
        disk.health.policy.suspect_error_threshold == 5,
        disk.health.policy.degraded_error_threshold == 20,
        disk.health.policy.failed_error_threshold == 100,
        disk.health.policy.temperature_warning_celsius == 60,
        disk.health.policy.temperature_critical_celsius == 75,
        require_qualification ==> disk.state is Suspect && disk.qualification is Pending,
        !require_qualification ==> disk.state is Healthy && disk.qualification is Qualified,
{
}

/// A discovery goes through exactly where every mount path has a disk that is neither
/// registered already nor found at an earlier path.
pub proof fn discovery_refuses_unknown_and_repeated_disks(
    disks: Map<u128, ManagedDisk>,
    mounts: Seq<FoundDisk>,
)
    ensures
        (forall|i: int| 0 <= i < mounts.len() ==> !#[trigger] is_refused(disks, mounts, i)) <==> {
            &&& forall|i: int| 0 <= i < mounts.len() ==> (#[trigger] mounts[i]).found is Ok
            &&& forall|i: int|
                0 <= i < mounts.len() ==> !disks.contains_key(
                    (#[trigger] mounts[i]).found->Ok_0.value,
                )
            &&& forall|i: int, j: int|
                0 <= j < i < mounts.len() ==> (#[trigger] mounts[i]).found->Ok_0 != (
                #[trigger] mounts[j]).found->Ok_0
        },
{
    if forall|i: int| 0 <= i < mounts.len() ==> !#[trigger] is_refused(disks, mounts, i) {
        assert forall|i: int| 0 <= i < mounts.len() implies (#[trigger] mounts[i]).found is Ok
            && !disks.contains_key(mounts[i].found->Ok_0.value) by {
            assert(!is_refused(disks, mounts, i));
        }
        assert forall|i: int, j: int| 0 <= j < i < mounts.len() implies (
        #[trigger] mounts[i]).found->Ok_0 != (#[trigger] mounts[j]).found->Ok_0 by {
            assert(!is_refused(disks, mounts, i));
            assert(mounts[j].found is Ok);
        }
    }
}

/// Telemetry never takes a disk out of service by an illegal change of state.
pub proof fn telemetry_respects_transitions(disk: ManagedDisk, telemetry: DiskTelemetry)
    ensures
        disk.after_telemetry(telemetry).state == disk.state || disk.state.can_become(
            disk.after_telemetry(telemetry).state,
        ),
        disk.state is Removed ==> disk.after_telemetry(telemetry).state is Removed,
{
}

/// A discovery registers every disk that it found up to the one that stopped it, each under
/// its own path, and nothing else; the disks that were there stay as they are.
pub proof fn discovery_registers_what_it_found(
    before: Map<u128, ManagedDisk>,
    after: Map<u128, ManagedDisk>,
    mounts: Seq<FoundDisk>,
    count: int,
    require_qualification: bool,
)
    requires
        0 <= count <= mounts.len(),
        registers(before, after, mounts, count, require_qualification),
    ensures
        forall|j: int|
            0 <= j < count ==> {
                let mount = #[trigger] mounts[j];
                let disk = after[mount.found->Ok_0.value];
                &&& mount.found is Ok
                &&& after.contains_key(mount.found->Ok_0.value)
                &&& disk.disk_id == mount.found->Ok_0
                &&& disk.mount_path@ == mount.path@
                &&& require_qualification ==> disk.state is Suspect && disk.qualification is Pending
                &&& !require_qualification ==> disk.state is Healthy
                    && disk.qualification is Qualified
            },
        forall|d: u128| #[trigger]
            before.contains_key(d) ==> after.contains_key(d) && after[d] == before[d],
        forall|d: u128| #[trigger]
            after.contains_key(d) && !before.contains_key(d) ==> exists|j: int|
                0 <= j < count && (#[trigger] mounts[j]).found is Ok && mounts[j].found->Ok_0.value
                    == d,
{
    assert forall|d: u128| #[trigger]
        after.contains_key(d) && !before.contains_key(d) implies exists|j: int|
        0 <= j < count && (#[trigger] mounts[j]).found is Ok && mounts[j].found->Ok_0.value == d by {
        let j = choose|j: int|
            0 <= j < count && (#[trigger] mounts[j]).found == Ok::<DiskId, StorageError>(
                DiskId { value: d },
            );
        assert(mounts[j].found is Ok);
    }
}

} // verus!
