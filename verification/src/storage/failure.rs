//! Failure handling for data node crashes and disk failures.
//!
//! - Data node crash after local ack: the durable operation log tells retries of
//!   operations apart.
//! - Data node crash before local durability: staged files are discarded on recovery.
//! - Disk failure: transition to `failed`, stop IO, report extent set for repair,
//!   exclude from placement.
//! - Node startup ordering: local recovery, serve committed, hide staged, rejoin
//!   metadata.

use crate::ids::{DiskId, ExtentId, OperationId};
use crate::storage::disk::{says_unknown, DiskInventory, ManagedDisk};
use crate::storage::error::StorageError;
use crate::storage::extent::{lists_entries, ExtentIndex, LocalExtentEntry, RecoveryReport};
use crate::text::join3;
use crate::types::DiskState;
use std::collections::BTreeMap;
use vstd::prelude::*;

verus! {

broadcast use vstd::std_specs::btree::group_btree_axioms;

/// Result of a disk failure event.
#[derive(Clone, Debug)]
pub struct DiskFailureReport {
    pub disk_id: DiskId,
    pub previous_state: DiskState,
    pub affected_extents: Vec<ExtentId>,
    pub reason: String,
}

/// Result of node startup recovery.
#[derive(Clone, Debug)]
pub struct NodeRecoveryReport {
    pub disks_recovered: usize,
    pub committed_extents: usize,
    pub staged_discarded: usize,
    pub recovery_errors: usize,
    pub disk_reports: Vec<DiskRecoveryDetail>,
}

impl Default for NodeRecoveryReport {
    fn default() -> (r: Self)
        ensures
            r.disks_recovered == 0,
            r.committed_extents == 0,
            r.staged_discarded == 0,
            r.recovery_errors == 0,
            r.disk_reports@ == Seq::<DiskRecoveryDetail>::empty(),
    {
        NodeRecoveryReport {
            disks_recovered: 0,
            committed_extents: 0,
            staged_discarded: 0,
            recovery_errors: 0,
            disk_reports: Vec::new(),
        }
    }
}

/// Recovery detail for a single disk.
#[derive(Clone, Copy, Debug, PartialEq, Eq, Structural)]
pub struct DiskRecoveryDetail {
    pub disk_id: DiskId,
    pub committed: usize,
    pub staged_discarded: usize,
    pub errors: usize,
}

/// What the durable operation log keeps of an operation.
#[derive(Clone, Debug)]
pub struct OperationRecord {
    pub operation_id: OperationId,
    pub extent_id: ExtentId,
    pub extent_version: u64,
    pub disk_id: DiskId,
    pub checksum: String,
    pub success: bool,
}

/// Whether a list holds, in order, the identifiers of the extents on a disk.
pub open spec fn lists_extents_of(
    entries: Map<u128, LocalExtentEntry>,
    disk_id: DiskId,
    r: Seq<ExtentId>,
) -> bool {
    &&& forall|i: int|
        0 <= i < r.len() ==> entries.contains_key((#[trigger] r[i]).value)
            && entries[r[i].value].disk_id == disk_id
    &&& forall|i: int, j: int|
        0 <= i < j < r.len() ==> (#[trigger] r[i]).value < (#[trigger] r[j]).value
    &&& forall|e: u128| #[trigger]
        entries.contains_key(e) && entries[e].disk_id == disk_id ==> r.contains(
            ExtentId { value: e },
        )
}

/// Handles disk failure events.
///
/// When a disk fails:
/// 1. Transition disk to `Failed` state
/// 2. Stop all reads and writes to that disk
/// 3. Report the set of affected extents for cluster repair
/// 4. Exclude the disk from future placement
pub fn handle_disk_failure(
    inventory: &mut DiskInventory,
    index: &ExtentIndex,
    disk_id: DiskId,
    reason: &str,
) -> (r: Result<DiskFailureReport, StorageError>)
    requires
        index.wf(),
    ensures
        old(inventory).wf() ==> final(inventory).wf(),
        if !old(inventory).disks@.contains_key(disk_id.value) {
            &&& r is Err
            &&& says_unknown(r->Err_0, disk_id)
            &&& final(inventory).disks@ == old(inventory).disks@
        } else {
            let disk = old(inventory).disks@[disk_id.value];
            &&& r is Ok
            &&& r->Ok_0.disk_id == disk_id
            &&& r->Ok_0.previous_state == disk.state
            &&& if disk.state is Failed || disk.state is Removed {
                &&& final(inventory).disks@ == old(inventory).disks@
                &&& r->Ok_0.affected_extents@ == Seq::<ExtentId>::empty()
                &&& r->Ok_0.reason@ == "disk already in "@ + disk.state.text() + " state"@
            } else {
                &&& final(inventory).disks@ == old(inventory).disks@.insert(
                    disk_id.value,
                    ManagedDisk { state: DiskState::Failed, ..disk },
                )
                &&& lists_extents_of(index.entries@, disk_id, r->Ok_0.affected_extents@)
                &&& forall|e: u128| #[trigger]
                    index.entries@.contains_key(e) && index.entries@[e].disk_id == disk_id
                        ==> r->Ok_0.affected_extents@.contains(ExtentId { value: e })
                &&& forall|i: int|
                    0 <= i < r->Ok_0.affected_extents@.len() ==> {
                        let e = (#[trigger] r->Ok_0.affected_extents@[i]).value;
                        index.entries@.contains_key(e) && index.entries@[e].disk_id == disk_id
                    }
                &&& r->Ok_0.reason@ == reason@
                &&& !final(inventory).takes_extents(disk_id.value)
                &&& !final(inventory).serves_reads(disk_id.value)
            }
        },
{
    let previous_state = match inventory.get_state(disk_id) {
        Ok(state) => state,
        Err(e) => {
            return Err(e);
        },
    };
    if matches!(previous_state, DiskState::Failed | DiskState::Removed) {
        return Ok(
            DiskFailureReport {
                disk_id,
                previous_state,
                affected_extents: Vec::new(),
                reason: join3("disk already in ", previous_state.to_text().as_str(), " state"),
            },
        );
    }
    match inventory.transition_state(disk_id, DiskState::Failed) {
        Ok(_) => {},
        Err(e) => {
            return Err(e);
        },
    }
    let hit = index.list_for_disk(disk_id);
    let mut affected: Vec<ExtentId> = Vec::new();
    let mut i: usize = 0;
    while i < hit.len()
        invariant
            i <= hit@.len(),
            affected@.len() == i,
            forall|j: int| 0 <= j < i ==> #[trigger] affected@[j] == hit@[j].extent_id,
        decreases hit@.len() - i,
    {
        affected.push(hit[i].extent_id);
        i = i + 1;
    }
    proof {
        assert forall|e: u128| #[trigger]
            index.entries@.contains_key(e) && index.entries@[e].disk_id
                == disk_id implies affected@.contains(ExtentId { value: e }) by {
            let j = choose|j: int| 0 <= j < hit@.len() && (#[trigger] hit@[j]).extent_id.value == e;
            assert(affected@[j] == ExtentId { value: e });
        }
    }
    Ok(
        DiskFailureReport {
            disk_id,
            previous_state,
            affected_extents: affected,
            reason: reason.to_owned(),
        },
    )
}

/// Result of checking dedup state after a crash.
#[derive(Clone, Debug, PartialEq, Eq)]
pub enum DedupCheckResult {
    PreviouslyCompleted { extent_id: ExtentId, extent_version: u64, checksum: String },
    PreviouslyFailed,
    Unknown,
}

/// Check whether an operation can be recovered from the dedup log
/// after a data node crash.
///
/// On recovery, the data node must either:
/// - Preserve local state for duplicate suppression, or
/// - Allow the client to determine committed state through metadata interrogation
///
/// This function checks the durable operation log, keyed by the value of the operation's
/// identifier, for a previous record.
pub fn check_dedup_after_crash(
    durable_log: &BTreeMap<u128, OperationRecord>,
    operation_id: OperationId,
) -> (r: DedupCheckResult)
    ensures
        if !durable_log@.contains_key(operation_id.value) {
            r is Unknown
        } else {
            let record = durable_log@[operation_id.value];
            if record.success {
                r == (DedupCheckResult::PreviouslyCompleted {
                    extent_id: record.extent_id,
                    extent_version: record.extent_version,
                    checksum: record.checksum,
                })
            } else {
                r is PreviouslyFailed
            }
        },
{
    match durable_log.get(&operation_id.value) {
        Some(record) => {
            if record.success {
                DedupCheckResult::PreviouslyCompleted {
                    extent_id: record.extent_id,
                    extent_version: record.extent_version,
                    checksum: record.checksum.clone(),
                }
            } else {
                DedupCheckResult::PreviouslyFailed
            }
        },
        None => DedupCheckResult::Unknown,
    }
}

/// Validate that a staged extent file is incomplete and must not be
/// treated as a valid local extent.
///
/// Staged files remaining after crash are by definition incomplete:
/// they survived because the process crashed before atomic promotion.
/// They MUST NOT be exposed as valid extents.
pub fn validate_staged_not_durable(staged_file_exists: bool) -> (r: bool)
    ensures
        r == staged_file_exists,
{
    staged_file_exists
}

/// How the recovery of a disk went.
#[derive(Clone, Copy, Debug, PartialEq, Eq, Structural)]
pub enum DiskRecovery {
    /// There is no extent store for the disk.
    NoStore,
    /// The disk was recovered.
    Recovered(RecoveryReport),
    /// The recovery failed.
    Failed,
}

/// The committed extents that were found on the disks.
pub open spec fn sum_committed(outcomes: Seq<(DiskId, DiskRecovery)>) -> nat
    decreases outcomes.len(),
{
    if outcomes.len() == 0 {
        0
    } else {
        sum_committed(outcomes.drop_last()) + (match outcomes.last().1 {
            DiskRecovery::Recovered(report) => report.committed_recovered as nat,
            _ => 0nat,
        })
    }
}

/// The staged files that were discarded on the disks.
pub open spec fn sum_staged(outcomes: Seq<(DiskId, DiskRecovery)>) -> nat
    decreases outcomes.len(),
{
    if outcomes.len() == 0 {
        0
    } else {
        sum_staged(outcomes.drop_last()) + (match outcomes.last().1 {
            DiskRecovery::Recovered(report) => report.staged_discarded as nat,
            _ => 0nat,
        })
    }
}

/// The errors on the disks; a disk without a store and a disk that could not be recovered
/// count as one each.
pub open spec fn sum_errors(outcomes: Seq<(DiskId, DiskRecovery)>) -> nat
    decreases outcomes.len(),
{
    if outcomes.len() == 0 {
        0
    } else {
        sum_errors(outcomes.drop_last()) + (match outcomes.last().1 {
            DiskRecovery::Recovered(report) => report.errors as nat,
            _ => 1nat,
        })
    }
}

/// The details of the disks that were recovered, in order.
pub open spec fn recovery_details(outcomes: Seq<(DiskId, DiskRecovery)>) -> Seq<DiskRecoveryDetail>
    decreases outcomes.len(),
{
    if outcomes.len() == 0 {
        Seq::empty()
    } else {
        let front = recovery_details(outcomes.drop_last());
        match outcomes.last().1 {
            DiskRecovery::Recovered(report) => front.push(
                DiskRecoveryDetail {
                    disk_id: outcomes.last().0,
                    committed: report.committed_recovered,
                    staged_discarded: report.staged_discarded,
                    errors: report.errors,
                },
            ),
            _ => front,
        }
    }
}

/// The disks after recovery: one that could not be recovered is failed, where its state
/// can become so.
pub open spec fn disks_after_recovery(
    disks: Map<u128, ManagedDisk>,
    outcomes: Seq<(DiskId, DiskRecovery)>,
) -> Map<u128, ManagedDisk>
    decreases outcomes.len(),
{
    if outcomes.len() == 0 {
        disks
    } else {
        let front = disks_after_recovery(disks, outcomes.drop_last());
        let d = outcomes.last().0.value;
        if outcomes.last().1 is Failed && front.contains_key(d) && front[d].state.can_become(
            DiskState::Failed,
        ) {
            front.insert(d, ManagedDisk { state: DiskState::Failed, ..front[d] })
        } else {
            front
        }
    }
}

proof fn lemma_sums_prefix(outcomes: Seq<(DiskId, DiskRecovery)>, count: int)
    requires
        0 <= count <= outcomes.len(),
    ensures
        sum_committed(outcomes.take(count)) <= sum_committed(outcomes),
        sum_staged(outcomes.take(count)) <= sum_staged(outcomes),
        sum_errors(outcomes.take(count)) <= sum_errors(outcomes),
        recovery_details(outcomes.take(count)).len() <= count,
    decreases outcomes.len(),
{
    if count == outcomes.len() {
        assert(outcomes.take(count) =~= outcomes);
        if count > 0 {
            let front = outcomes.drop_last();
            assert(front.take(count - 1) =~= front);
            lemma_sums_prefix(front, count - 1);
        }
    } else {
        assert(outcomes.drop_last().take(count) =~= outcomes.take(count));
        lemma_sums_prefix(outcomes.drop_last(), count);
    }
}

/// Perform node startup recovery.
///
/// Recovery ordering:
/// 1. Local recovery: restore committed extents, rebuild index
/// 2. Discard incomplete staged files
/// 3. Serve committed extents
/// 4. Hide staged files (they are invisible to reads)
/// 5. Rejoin metadata participation after local state is valid
///
/// `outcomes` says for each disk, in order, how its local recovery went.  A node MUST NOT
/// advertise itself as fully writable before local recovery has completed.
pub fn recover_node(inventory: &mut DiskInventory, outcomes: &Vec<(DiskId, DiskRecovery)>) -> (r:
    NodeRecoveryReport)
    requires
        sum_committed(outcomes@) <= usize::MAX,
        sum_staged(outcomes@) <= usize::MAX,
        sum_errors(outcomes@) <= usize::MAX,
    ensures
        r.committed_extents == sum_committed(outcomes@),
        r.staged_discarded == sum_staged(outcomes@),
        r.recovery_errors == sum_errors(outcomes@),
        r.disk_reports@ == recovery_details(outcomes@),
        r.disks_recovered == recovery_details(outcomes@).len(),
        final(inventory).disks@ == disks_after_recovery(old(inventory).disks@, outcomes@),
        old(inventory).wf() ==> final(inventory).wf(),
{
    let mut report = NodeRecoveryReport::default();
    let mut i: usize = 0;
    while i < outcomes.len()
        invariant
            i <= outcomes@.len(),
            sum_committed(outcomes@) <= usize::MAX,
            sum_staged(outcomes@) <= usize::MAX,
            sum_errors(outcomes@) <= usize::MAX,
            report.committed_extents == sum_committed(outcomes@.take(i as int)),
            report.staged_discarded == sum_staged(outcomes@.take(i as int)),
            report.recovery_errors == sum_errors(outcomes@.take(i as int)),
            report.disk_reports@ == recovery_details(outcomes@.take(i as int)),
            report.disks_recovered == report.disk_reports@.len(),
            report.disks_recovered <= i,
            inventory.disks@ == disks_after_recovery(
                old(inventory).disks@,
                outcomes@.take(i as int),
            ),
            old(inventory).wf() ==> inventory.wf(),
        decreases outcomes@.len() - i,
    {
        proof {
            lemma_sums_prefix(outcomes@, i + 1);
            assert(outcomes@.take(i + 1).drop_last() =~= outcomes@.take(i as int));
        }
        let disk_id = outcomes[i].0;
        match outcomes[i].1 {
            DiskRecovery::NoStore => {
                report.recovery_errors = report.recovery_errors + 1;
            },
            DiskRecovery::Recovered(disk_report) => {
                report.committed_extents =
                report.committed_extents + disk_report.committed_recovered;
                report.staged_discarded = report.staged_discarded + disk_report.staged_discarded;
                report.recovery_errors = report.recovery_errors + disk_report.errors;
                report.disk_reports.push(
                    DiskRecoveryDetail {
                        disk_id,
                        committed: disk_report.committed_recovered,
                        staged_discarded: disk_report.staged_discarded,
                        errors: disk_report.errors,
                    },
                );
                report.disks_recovered = report.disks_recovered + 1;
            },
            DiskRecovery::Failed => {
                let _ = inventory.transition_state(disk_id, DiskState::Failed);
                report.recovery_errors = report.recovery_errors + 1;
            },
        }
        i = i + 1;
    }
    assert(outcomes@.take(outcomes@.len() as int) =~= outcomes@);
    report
}

/// Determine the set of extents that need repair after a disk failure.
///
/// Returns the extents of the failed disk, which should be re-replicated
/// or reconstructed by the cluster repair subsystem.
pub fn extents_needing_repair(index: &ExtentIndex, failed_disk: DiskId) -> (r: Vec<
    &LocalExtentEntry,
>)
    requires
        index.wf(),
    ensures
        lists_entries(index.entries@, Some(failed_disk), r@),
        forall|i: int|
            0 <= i < r@.len() ==> index.entries@.contains_key((#[trigger] r@[i]).extent_id.value)
                && *r@[i] == index.entries@[r@[i].extent_id.value] && r@[i].disk_id == failed_disk,
        forall|i: int, j: int|
            0 <= i < j < r@.len() ==> (#[trigger] r@[i]).extent_id.value < (
            #[trigger] r@[j]).extent_id.value,
        forall|e: u128| #[trigger]
            index.entries@.contains_key(e) && index.entries@[e].disk_id == failed_disk ==> exists|i: int|
                0 <= i < r@.len() && (#[trigger] r@[i]).extent_id.value == e,
{
    index.list_for_disk(failed_disk)
}

/// Check if a node is ready to advertise itself as writable: one of its disks takes new
/// extents.
///
/// A node must complete local recovery before accepting writes.
pub fn node_ready_for_writes(inventory: &DiskInventory, _index: &ExtentIndex) -> (r: bool)
    ensures
        r == exists|d: u128| #[trigger] inventory.takes_extents(d),
{
    let disks = inventory.list_disks();
    let mut i: usize = 0;
    while i < disks.len()
        invariant
            i <= disks@.len(),
            forall|d: u128| #[trigger]
                inventory.disks@.contains_key(d) <==> disks@.contains(DiskId { value: d }),
            forall|j: int| 0 <= j < i ==> !inventory.takes_extents((#[trigger] disks@[j]).value),
        decreases disks@.len() - i,
    {
        match inventory.allows_allocation(disks[i]) {
            Ok(true) => {
                assert(inventory.takes_extents(disks@[i as int].value));
                return true;
            },
            _ => {},
        }
        i = i + 1;
    }
    proof {
        assert forall|d: u128| !(#[trigger] inventory.takes_extents(d)) by {
            if inventory.takes_extents(d) {
                assert(inventory.disks@.contains_key(d));
                let j = choose|j: int| 0 <= j < disks@.len() && disks@[j] == (DiskId { value: d });
                assert(!inventory.takes_extents(disks@[j].value));
            }
        }
    }
    false
}

/// Check if a node is ready to serve reads from committed extents: one of its disks serves
/// reads.
///
/// A node can serve reads as soon as local recovery has rebuilt the
/// extent index from committed files. It does not need to wait for
/// metadata rejoin.
pub fn node_ready_for_reads(inventory: &DiskInventory, _index: &ExtentIndex) -> (r: bool)
    ensures
        r == exists|d: u128| #[trigger] inventory.serves_reads(d),
{
    let disks = inventory.list_disks();
    let mut i: usize = 0;
    while i < disks.len()
        invariant
            i <= disks@.len(),
            forall|d: u128| #[trigger]
                inventory.disks@.contains_key(d) <==> disks@.contains(DiskId { value: d }),
            forall|j: int| 0 <= j < i ==> !inventory.serves_reads((#[trigger] disks@[j]).value),
        decreases disks@.len() - i,
    {
        match inventory.allows_reads(disks[i]) {
            Ok(true) => {
                assert(inventory.serves_reads(disks@[i as int].value));
                return true;
            },
            _ => {},
        }
        i = i + 1;
    }
    proof {
        assert forall|d: u128| !(#[trigger] inventory.serves_reads(d)) by {
            if inventory.serves_reads(d) {
                assert(inventory.disks@.contains_key(d));
                let j = choose|j: int| 0 <= j < disks@.len() && disks@[j] == (DiskId { value: d });
                assert(!inventory.serves_reads(disks@[j].value));
            }
        }
    }
    false
}

/// A node that takes writes serves reads too.
pub proof fn writable_nodes_serve_reads(inventory: DiskInventory)
    requires
        exists|d: u128| #[trigger] inventory.takes_extents(d),
    ensures
        exists|d: u128| #[trigger] inventory.serves_reads(d),
{
    let d = choose|d: u128| #[trigger] inventory.takes_extents(d);
    assert(inventory.serves_reads(d));
}

/// The report of a recovery lists exactly the disks that were recovered, in order, each with
/// what was found on it, and adds them up; every disk without a store and every disk that
/// could not be recovered counts as one error more.
pub proof fn recovery_reports_add_up(outcomes: Seq<(DiskId, DiskRecovery)>)
    ensures
        ({
            let details = recovery_details(outcomes);
            let recovered = outcomes.filter(|o: (DiskId, DiskRecovery)| o.1 is Recovered);
            let lost = outcomes.filter(|o: (DiskId, DiskRecovery)| !(o.1 is Recovered));
            &&& details.len() == recovered.len()
            &&& forall|i: int|
                0 <= i < details.len() ==> {
                    let detail = #[trigger] details[i];
                    let report = recovered[i].1->Recovered_0;
                    &&& detail.disk_id == recovered[i].0
                    &&& detail.committed == report.committed_recovered
                    &&& detail.staged_discarded == report.staged_discarded
                    &&& detail.errors == report.errors
                }
            &&& sum_committed(outcomes) == details.fold_left(
                0int,
                |n: int, d: DiskRecoveryDetail| n + d.committed,
            )
            &&& sum_staged(outcomes) == details.fold_left(
                0int,
                |n: int, d: DiskRecoveryDetail| n + d.staged_discarded,
            )
            &&& sum_errors(outcomes) == lost.len() + details.fold_left(
                0int,
                |n: int, d: DiskRecoveryDetail| n + d.errors,
            )
        }),
    decreases outcomes.len(),
{
    reveal(Seq::filter);
    reveal(Seq::fold_left);
    if outcomes.len() > 0 {
        let front = outcomes.drop_last();
        recovery_reports_add_up(front);
        let before = recovery_details(front);
        let details = recovery_details(outcomes);
        if outcomes.last().1 is Recovered {
            assert(details.drop_last() =~= before);
            let recovered = outcomes.filter(|o: (DiskId, DiskRecovery)| o.1 is Recovered);
            assert forall|i: int| 0 <= i < details.len() implies {
                let detail = #[trigger] details[i];
                let report = recovered[i].1->Recovered_0;
                &&& detail.disk_id == recovered[i].0
                &&& detail.committed == report.committed_recovered
                &&& detail.staged_discarded == report.staged_discarded
                &&& detail.errors == report.errors
            } by {
                if i < before.len() {
                    assert(details[i] == before[i]);
                }
            }
        }
    }
}

/// A disk is failed by recovery exactly where its recovery failed and it was in service or
/// draining; every other disk, and all else about any disk, stays.
pub proof fn only_lost_disks_are_failed(
    disks: Map<u128, ManagedDisk>,
    outcomes: Seq<(DiskId, DiskRecovery)>,
    d: u128,
)
    ensures
        ({
            let after = disks_after_recovery(disks, outcomes);
            let lost = exists|i: int|
                0 <= i < outcomes.len() && (#[trigger] outcomes[i]).0.value == d
                    && outcomes[i].1 is Failed;
            &&& after.contains_key(d) == disks.contains_key(d)
            &&& disks.contains_key(d) ==> {
                &&& after[d].state == (if lost && !(disks[d].state is Removed) {
                    DiskState::Failed
                } else {
                    disks[d].state
                })
                &&& after[d].disk_id == disks[d].disk_id
                &&& after[d].mount_path == disks[d].mount_path
                &&& after[d].qualification == disks[d].qualification
                &&& after[d].health == disks[d].health
                &&& after[d].bad_regions == disks[d].bad_regions
            }
        }),
    decreases outcomes.len(),
{
    if outcomes.len() > 0 {
        let front = outcomes.drop_last();
        let last = outcomes.len() - 1;
        only_lost_disks_are_failed(disks, front, d);
        assert(outcomes.last() == outcomes[last]);
        if exists|i: int|
            0 <= i < outcomes.len() && (#[trigger] outcomes[i]).0.value == d
                && outcomes[i].1 is Failed {
            let i = choose|i: int|
                0 <= i < outcomes.len() && (#[trigger] outcomes[i]).0.value == d
                    && outcomes[i].1 is Failed;
            if i < last {
                assert(front[i] == outcomes[i]);
            }
        }
        if exists|i: int|
            0 <= i < front.len() && (#[trigger] front[i]).0.value == d && front[i].1 is Failed {
            let i = choose|i: int|
                0 <= i < front.len() && (#[trigger] front[i]).0.value == d && front[i].1 is Failed;
            assert(outcomes[i] == front[i]);
        }
    }
}

} // verus!
