//! Disk drain workflow.
//!
//! Enumerates live extents on a draining disk, relocates each via
//! the repair subsystem, and transitions the disk to `Removed` when done.

use crate::ids::{DiskId, ExtentId};
use crate::storage::background::repair::{
    lemma_queue_position, queue_position, RepairRequest, RepairType, RepairWorker,
};
use vstd::prelude::*;

verus! {

/// The priority of the relocation of an extent.
pub const DRAIN_PRIORITY: u32 = 100;

/// Configuration for the drain worker.
#[derive(Clone, Copy, Debug, PartialEq, Eq, Structural)]
pub struct DrainConfig {
    /// Tokens consumed per extent relocation.
    pub tokens_per_relocate: u64,
    /// Delay between relocations (ms) to avoid overwhelming the cluster.
    pub inter_relocate_delay_ms: u64,
}

impl Default for DrainConfig {
    fn default() -> (r: Self)
        ensures
            r.tokens_per_relocate == 5,
            r.inter_relocate_delay_ms == 100,
    {
        DrainConfig { tokens_per_relocate: 5, inter_relocate_delay_ms: 100 }
    }
}

/// Entry for an extent that needs draining.
#[derive(Clone, Debug)]
pub struct DrainExtentEntry {
    pub extent_id: ExtentId,
    pub version: u64,
    pub healthy_sources: Vec<DiskId>,
}

impl DrainExtentEntry {
    /// The request to relocate the extent to a disk.
    pub open spec fn relocation(self, target: DiskId) -> RepairRequest {
        RepairRequest {
            extent_id: self.extent_id,
            version: self.version,
            target_disk_id: target,
            repair_type: RepairType::Replication { healthy_sources: self.healthy_sources },
            priority: DRAIN_PRIORITY,
        }
    }
}

/// A call that an inventory got, and its answer.
pub ghost enum DrainCall {
    List { disk_id: DiskId, entries: Seq<DrainExtentEntry> },
    Draining { disk_id: DiskId, answer: bool },
    Select { exclude: DiskId, result: Result<DiskId, String> },
    Remove { disk_id: DiskId, result: Result<(), String> },
}

/// Enumerates extents on a disk and manages disk state.
pub trait DrainInventory {
    /// The calls that the inventory got so far. An implementation that is itself verified
    /// keeps this record; for any other it is what a bystander would have noted down.
    open spec fn calls(&self) -> Seq<DrainCall> {
        Seq::empty()
    }

    /// List all extent entries on the draining disk.
    fn list_extents_on_disk(&mut self, disk_id: DiskId) -> (r: Vec<DrainExtentEntry>)
        ensures
            final(self).calls() == old(self).calls().push(
                (DrainCall::List { disk_id, entries: r@ }),
            ),
    ;

    /// Select a target disk for relocation.
    fn select_target_disk(&mut self, exclude: DiskId) -> (r: Result<DiskId, String>)
        ensures
            final(self).calls() == old(self).calls().push(
                (DrainCall::Select { exclude, result: r }),
            ),
    ;

    /// Transition disk to removed state.
    fn transition_to_removed(&mut self, disk_id: DiskId) -> (r: Result<(), String>)
        ensures
            final(self).calls() == old(self).calls().push(
                (DrainCall::Remove { disk_id, result: r }),
            ),
    ;

    /// Check if disk is still in draining state.
    fn is_draining(&mut self, disk_id: DiskId) -> (r: bool)
        ensures
            final(self).calls() == old(self).calls().push(
                (DrainCall::Draining { disk_id, answer: r }),
            ),
    ;
}

/// The calls by which targets are sought for the first extents of a disk that is still
/// draining.
pub open spec fn seeking(disk_id: DiskId, targets: Seq<Result<DiskId, String>>) -> Seq<DrainCall>
    decreases targets.len(),
{
    if targets.len() == 0 {
        Seq::empty()
    } else {
        seeking(disk_id, targets.drop_last()).push(
            DrainCall::Draining { disk_id, answer: true },
        ).push(DrainCall::Select { exclude: disk_id, result: targets.last() })
    }
}

/// The calls of a drain of `total` extents: targets are sought until the disk is no
/// longer draining, and its removal is asked for, once, exactly where every extent was
/// relocated.
pub open spec fn drain_calls(
    disk_id: DiskId,
    total: nat,
    targets: Seq<Result<DiskId, String>>,
    removal: Result<(), String>,
) -> Seq<DrainCall> {
    let sought = seeking(disk_id, targets);
    if targets.len() < total {
        sought.push(DrainCall::Draining { disk_id, answer: false })
    } else if found(targets) == total {
        sought.push(DrainCall::Remove { disk_id, result: removal })
    } else {
        sought
    }
}

/// Whether a drain of the given extents, with these targets found or not for the first of
/// them and with this answer to the removal, made these calls and ended with this
/// progress and this repair queue.
pub open spec fn drain_ran(
    disk_id: DiskId,
    extents: Seq<DrainExtentEntry>,
    targets: Seq<Result<DiskId, String>>,
    removal: Result<(), String>,
    calls: Seq<DrainCall>,
    progress: DrainProgress,
    queue: Seq<RepairRequest>,
    after: Seq<RepairRequest>,
) -> bool {
    &&& targets.len() <= extents.len()
    &&& calls == drain_calls(disk_id, extents.len(), targets, removal)
    &&& progress == (DrainProgress {
        complete: found(targets) == extents.len() && removal is Ok,
        ..drained(disk_id, extents.len() as u64, targets)
    })
    &&& after == queue_after(queue, extents, targets)
}

/// Progress of a drain operation.
#[derive(Clone, Copy, Debug, PartialEq, Eq, Structural)]
pub struct DrainProgress {
    /// Disk being drained.
    pub disk_id: DiskId,
    /// Total extents to relocate.
    pub total_extents: u64,
    /// Extents relocated so far.
    pub relocated: u64,
    /// Extents that failed relocation.
    pub failed: u64,
    /// Whether the drain is complete.
    pub complete: bool,
}

impl DrainProgress {
    /// No more extents are dealt with than there are, and a drain is complete only when
    /// every extent was relocated.
    pub open spec fn wf(self) -> bool {
        &&& self.relocated + self.failed <= self.total_extents
        &&& self.complete ==> self.all_relocated()
    }

    /// Whether every extent was relocated.
    pub open spec fn all_relocated(self) -> bool {
        self.relocated == self.total_extents && self.failed == 0
    }

    /// The progress before anything was done.
    pub fn new(disk_id: DiskId, total_extents: u64) -> (r: Self)
        ensures
            r == (DrainProgress {
                disk_id,
                total_extents,
                relocated: 0,
                failed: 0,
                complete: false,
            }),
            r.wf(),
    {
        DrainProgress { disk_id, total_extents, relocated: 0, failed: 0, complete: false }
    }
}

/// How many of the targets were found.
pub open spec fn found(targets: Seq<Result<DiskId, String>>) -> nat
    decreases targets.len(),
{
    if targets.len() == 0 {
        0
    } else {
        found(targets.drop_last()) + (if targets.last() is Ok {
            1nat
        } else {
            0nat
        })
    }
}

/// How far a drain has got when a target was sought for the first extents, whether or
/// not one was found.
pub open spec fn drained(disk_id: DiskId, total: u64, targets: Seq<Result<DiskId, String>>) -> DrainProgress {
    DrainProgress {
        disk_id,
        total_extents: total,
        relocated: found(targets) as u64,
        failed: (targets.len() - found(targets)) as u64,
        complete: false,
    }
}

/// A repair queue after the relocations of the first extents were put in it; an extent
/// for which no target was found is left out.
pub open spec fn queue_after(
    queue: Seq<RepairRequest>,
    extents: Seq<DrainExtentEntry>,
    targets: Seq<Result<DiskId, String>>,
) -> Seq<RepairRequest>
    decreases targets.len(),
{
    if targets.len() == 0 {
        queue
    } else {
        let before = queue_after(queue, extents, targets.drop_last());
        match targets.last() {
            Ok(target) => before.insert(
                queue_position(before, DRAIN_PRIORITY, 0),
                extents[targets.len() - 1].relocation(target),
            ),
            Err(_) => before,
        }
    }
}

/// A disk's removal is asked for only when every extent on it was relocated: a target was
/// found for each, and a request for each is in the repair queue.
pub proof fn removed_disks_are_empty(
    disk_id: DiskId,
    extents: Seq<DrainExtentEntry>,
    targets: Seq<Result<DiskId, String>>,
    removal: Result<(), String>,
    calls: Seq<DrainCall>,
    progress: DrainProgress,
    queue: Seq<RepairRequest>,
    after: Seq<RepairRequest>,
    asked: int,
)
    requires
        drain_ran(disk_id, extents, targets, removal, calls, progress, queue, after),
        0 <= asked < calls.len(),
        calls[asked] is Remove,
    ensures
        calls[asked] == (DrainCall::Remove { disk_id, result: removal }),
        targets.len() == extents.len(),
        forall|i: int|
            0 <= i < extents.len() ==> (#[trigger] targets[i]) is Ok && after.contains(
                extents[i].relocation(targets[i]->Ok_0),
            ),
{
    lemma_seeking_removes_nothing(disk_id, targets);
    lemma_found(targets);
    relocated_extents_are_queued(queue, extents, targets);
}

/// A drain that relocated every extent asks for the removal of the disk, as its last call
/// and only then; it is complete exactly where the removal was asked for and granted.
pub proof fn emptied_disks_are_removed(
    disk_id: DiskId,
    extents: Seq<DrainExtentEntry>,
    targets: Seq<Result<DiskId, String>>,
    removal: Result<(), String>,
    calls: Seq<DrainCall>,
    progress: DrainProgress,
    queue: Seq<RepairRequest>,
    after: Seq<RepairRequest>,
)
    requires
        extents.len() <= u64::MAX,
        drain_ran(disk_id, extents, targets, removal, calls, progress, queue, after),
    ensures
        progress.wf(),
        progress.all_relocated() <==> calls.len() > 0 && calls.last() is Remove,
        forall|i: int| 0 <= i < calls.len() - 1 ==> !((#[trigger] calls[i]) is Remove),
        progress.complete <==> calls.len() > 0 && (calls.last() matches DrainCall::Remove {
            result,
            ..
        } && result is Ok),
{
    lemma_seeking_removes_nothing(disk_id, targets);
    lemma_found(targets);
    let sought = seeking(disk_id, targets);
    assert forall|i: int| 0 <= i < calls.len() - 1 implies !((#[trigger] calls[i]) is Remove) by {
        assert(calls[i] == sought[i]);
    }
}

proof fn lemma_seeking_removes_nothing(disk_id: DiskId, targets: Seq<Result<DiskId, String>>)
    ensures
        forall|i: int|
            0 <= i < seeking(disk_id, targets).len() ==> !((#[trigger] seeking(
                disk_id,
                targets,
            )[i]) is Remove),
    decreases targets.len(),
{
    if targets.len() > 0 {
        let before = seeking(disk_id, targets.drop_last());
        let sought = seeking(disk_id, targets);
        lemma_seeking_removes_nothing(disk_id, targets.drop_last());
        assert forall|i: int| 0 <= i < sought.len() implies !((#[trigger] sought[i]) is Remove) by {
            if i < before.len() {
                assert(sought[i] == before[i]);
            }
        }
    }
}

/// A drain whose extents were all relocated has put a request for each of them in the
/// repair queue, and no request is lost.
pub proof fn relocated_extents_are_queued(
    queue: Seq<RepairRequest>,
    extents: Seq<DrainExtentEntry>,
    targets: Seq<Result<DiskId, String>>,
)
    requires
        targets.len() <= extents.len(),
    ensures
        forall|i: int|
            0 <= i < targets.len() && (#[trigger] targets[i]) is Ok ==> queue_after(
                queue,
                extents,
                targets,
            ).contains(extents[i].relocation(targets[i]->Ok_0)),
        forall|r: RepairRequest|
            #[trigger] queue.contains(r) ==> queue_after(queue, extents, targets).contains(r),
        queue_after(queue, extents, targets).len() == queue.len() + found(targets),
    decreases targets.len(),
{
    if targets.len() > 0 {
        let rest = targets.drop_last();
        relocated_extents_are_queued(queue, extents, rest);
        let before = queue_after(queue, extents, rest);
        let after = queue_after(queue, extents, targets);
        if targets.last() is Ok {
            let p = queue_position(before, DRAIN_PRIORITY, 0);
            let new = extents[targets.len() - 1].relocation(targets.last()->Ok_0);
            lemma_queue_position(before, DRAIN_PRIORITY, 0);
            assert(after == before.insert(p, new));
            assert(after[p] == new);
            assert forall|r: RepairRequest| #[trigger] before.contains(r) implies after.contains(
                r,
            ) by {
                let i = before.index_of(r);
                assert(after[if i < p { i } else { i + 1 }] == r);
            }
        }
        assert forall|i: int| 0 <= i < targets.len() && (#[trigger] targets[i]) is Ok implies
            after.contains(extents[i].relocation(targets[i]->Ok_0)) by {
            if i < targets.len() - 1 {
                assert(rest[i] == targets[i]);
                assert(before.contains(extents[i].relocation(rest[i]->Ok_0)));
            }
        }
    }
}

proof fn lemma_found(targets: Seq<Result<DiskId, String>>)
    ensures
        found(targets) <= targets.len(),
        found(targets) == targets.len() ==> forall|i: int|
            0 <= i < targets.len() ==> (#[trigger] targets[i]) is Ok,
    decreases targets.len(),
{
    if targets.len() > 0 {
        lemma_found(targets.drop_last());
        if found(targets) == targets.len() {
            assert forall|i: int| 0 <= i < targets.len() implies (#[trigger] targets[i]) is Ok by {
                if i < targets.len() - 1 {
                    assert(targets.drop_last()[i] == targets[i]);
                }
            }
        }
    }
}

/// Background drain worker.
///
/// Enumerates extents on a draining disk, submits repair requests for
/// each extent, and transitions the disk to removed when all extents
/// have been relocated.
#[derive(Clone, Copy, Debug)]
pub struct DrainWorker {
    pub config: DrainConfig,
    pub progress: Option<DrainProgress>,
}

impl DrainWorker {
    /// Create a new drain worker.
    pub fn new(config: DrainConfig) -> (r: Self)
        ensures
            r.config == config,
            r.progress is None,
    {
        DrainWorker { config, progress: None }
    }

    /// Get configuration.
    pub fn config(&self) -> (r: &DrainConfig)
        ensures
            *r == self.config,
    {
        &self.config
    }

    /// Get current drain progress.
    pub fn progress(&self) -> (r: Option<DrainProgress>)
        ensures
            r == self.progress,
    {
        self.progress
    }

    /// What a drain that was cancelled reports: how far it got, or that it never began.
    pub fn progress_when_cancelled(&self, disk_id: DiskId) -> (r: DrainProgress)
        ensures
            r == (match self.progress {
                Some(progress) => progress,
                None => drained(disk_id, 0, Seq::empty()),
            }),
    {
        match self.progress {
            Some(progress) => progress,
            None => DrainProgress::new(disk_id, 0),
        }
    }

    /// Begins the drain of a disk.
    pub fn begin(&mut self, disk_id: DiskId, total_extents: u64)
        ensures
            final(self).config == old(self).config,
            final(self).progress == Some(drained(disk_id, total_extents, Seq::empty())),
            final(self).progress->0.wf(),
    {
        self.progress = Some(DrainProgress::new(disk_id, total_extents));
    }

    /// Relocates an extent to the target that was selected: puts a request in the repair
    /// queue. Where no target was found, the relocation has failed.
    pub fn relocate(
        &mut self,
        entry: DrainExtentEntry,
        target: &Result<DiskId, String>,
        repair_worker: &mut RepairWorker,
    )
        requires
            old(self).progress is Some,
            old(self).progress->0.relocated + old(self).progress->0.failed < old(self).progress->0.total_extents,
            old(self).progress->0.wf(),
        ensures
            final(self).config == old(self).config,
            final(self).progress is Some,
            final(self).progress->0.wf(),
            final(repair_worker).config == old(repair_worker).config,
            final(repair_worker).completed == old(repair_worker).completed,
            old(repair_worker).wf() ==> final(repair_worker).wf(),
            match *target {
                Ok(target) => {
                    &&& final(self).progress->0 == (DrainProgress {
                        relocated: (old(self).progress->0.relocated + 1) as u64,
                        ..old(self).progress->0
                    })
                    &&& final(repair_worker).queue@ == old(repair_worker).queue@.insert(
                        queue_position(old(repair_worker).queue@, DRAIN_PRIORITY, 0),
                        entry.relocation(target),
                    )
                },
                Err(_) => {
                    &&& final(self).progress->0 == (DrainProgress {
                        failed: (old(self).progress->0.failed + 1) as u64,
                        ..old(self).progress->0
                    })
                    &&& final(repair_worker).queue@ == old(repair_worker).queue@
                },
            },
    {
        let mut progress: DrainProgress = match self.progress {
            Some(progress) => progress,
            None => {
                return;
            },
        };
        match target {
            Ok(target) => {
                repair_worker.enqueue(
                    RepairRequest {
                        extent_id: entry.extent_id,
                        version: entry.version,
                        target_disk_id: *target,
                        repair_type: RepairType::Replication {
                            healthy_sources: entry.healthy_sources,
                        },
                        priority: DRAIN_PRIORITY,
                    },
                );
                progress.relocated = progress.relocated + 1;
            },
            Err(_) => {
                progress.failed = progress.failed + 1;
            },
        }
        self.progress = Some(progress);
    }

    /// Whether every extent was relocated, so that the disk may be removed.
    pub fn can_remove(&self) -> (r: bool)
        ensures
            r == (self.progress is Some && self.progress->0.all_relocated()),
    {
        match &self.progress {
            Some(progress) => progress.relocated == progress.total_extents && progress.failed == 0,
            None => false,
        }
    }

    /// Records that the disk was removed.
    pub fn finish(&mut self)
        requires
            old(self).progress is Some,
            old(self).progress->0.all_relocated(),
        ensures
            final(self).config == old(self).config,
            final(self).progress == Some(
                DrainProgress { complete: true, ..old(self).progress->0 },
            ),
            final(self).progress->0.wf(),
    {
        match self.progress {
            Some(progress) => {
                self.progress = Some(DrainProgress { complete: true, ..progress });
            },
            None => {},
        }
    }

    /// Drains a disk of the given extents.
    ///
    /// Whatever the inventory answers, there are targets that were found, or not, for the
    /// first extents, such that the calls, the progress and the repair queue are those of
    /// a drain with them. The disk's removal is asked for only when every extent was
    /// relocated.
    pub fn drain_extents<I: DrainInventory>(
        &mut self,
        disk_id: DiskId,
        extents: Vec<DrainExtentEntry>,
        inventory: &mut I,
        repair_worker: &mut RepairWorker,
    ) -> (r: DrainProgress)
        ensures
            final(self).config == old(self).config,
            final(self).progress == Some(r),
            r.wf(),
            r.disk_id == disk_id,
            r.total_extents == extents@.len(),
            final(repair_worker).config == old(repair_worker).config,
            final(repair_worker).completed == old(repair_worker).completed,
            old(repair_worker).wf() ==> final(repair_worker).wf(),
            exists|
                targets: Seq<Result<DiskId, String>>,
                removal: Result<(), String>,
                calls: Seq<DrainCall>,
            |
                {
                    &&& final(inventory).calls() == old(inventory).calls() + calls
                    &&& #[trigger] drain_ran(
                        disk_id,
                        extents@,
                        targets,
                        removal,
                        calls,
                        r,
                        old(repair_worker).queue@,
                        final(repair_worker).queue@,
                    )
                },
    {
        let ghost all = extents@;
        let ghost queued = repair_worker.queue@;
        let ghost called = inventory.calls();
        let ghost mut targets: Seq<Result<DiskId, String>> = Seq::empty();
        let ghost mut removal: Result<(), String> = Ok(());
        let total = extents.len() as u64;
        self.begin(disk_id, total);
        assert(called + seeking(disk_id, targets) =~= called);
        for entry in it: extents
            invariant_except_break
                targets.len() == it.index(),
                inventory.calls() == called + seeking(disk_id, targets),
            invariant
                it.seq() == all,
                all == extents@,
                total == all.len(),
                targets.len() <= all.len(),
                self.config == old(self).config,
                self.progress == Some(drained(disk_id, total, targets)),
                self.progress->0.wf(),
                queued == old(repair_worker).queue@,
                repair_worker.queue@ == queue_after(queued, all, targets),
                repair_worker.config == old(repair_worker).config,
                repair_worker.completed == old(repair_worker).completed,
                old(repair_worker).wf() ==> repair_worker.wf(),
            ensures
                inventory.calls() == called + (if targets.len() < all.len() {
                    seeking(disk_id, targets).push(DrainCall::Draining { disk_id, answer: false })
                } else {
                    seeking(disk_id, targets)
                }),
        {
            if !inventory.is_draining(disk_id) {
                assert(inventory.calls() =~= called + seeking(disk_id, targets).push(
                    DrainCall::Draining { disk_id, answer: false },
                ));
                break;
            }
            let target = inventory.select_target_disk(disk_id);
            proof {
                lemma_found(targets);
            }
            self.relocate(entry, &target, repair_worker);
            proof {
                let before = targets;
                targets = targets.push(target);
                assert(targets.drop_last() =~= before);
                assert(inventory.calls() =~= called + seeking(disk_id, targets));
                lemma_found(targets);
            }
        }
        proof {
            lemma_found(targets);
        }
        if self.can_remove() {
            let removed = inventory.transition_to_removed(disk_id);
            proof {
                removal = removed;
            }
            if removed.is_ok() {
                self.finish();
            }
        }
        let r = match self.progress {
            Some(progress) => progress,
            None => DrainProgress::new(disk_id, total),
        };
        proof {
            let calls = drain_calls(disk_id, all.len(), targets, removal);
            assert(inventory.calls() =~= called + calls);
            assert(drain_ran(
                disk_id,
                all,
                targets,
                removal,
                calls,
                r,
                queued,
                repair_worker.queue@,
            ));
        }
        r
    }

    /// Execute drain for a single disk.
    ///
    /// Enumerates all extents, submits repair requests via the repair worker,
    /// and transitions the disk to removed on completion.
    pub fn drain_disk<I: DrainInventory>(
        &mut self,
        disk_id: DiskId,
        inventory: &mut I,
        repair_worker: &mut RepairWorker,
    ) -> (r: DrainProgress)
        ensures
            final(self).config == old(self).config,
            final(self).progress == Some(r),
            r.wf(),
            r.disk_id == disk_id,
            final(repair_worker).config == old(repair_worker).config,
            final(repair_worker).completed == old(repair_worker).completed,
            old(repair_worker).wf() ==> final(repair_worker).wf(),
            exists|
                entries: Seq<DrainExtentEntry>,
                targets: Seq<Result<DiskId, String>>,
                removal: Result<(), String>,
                calls: Seq<DrainCall>,
            |
                {
                    &&& r.total_extents == entries.len()
                    &&& final(inventory).calls() == old(inventory).calls().push(
                        DrainCall::List { disk_id, entries },
                    ) + calls
                    &&& #[trigger] drain_ran(
                        disk_id,
                        entries,
                        targets,
                        removal,
                        calls,
                        r,
                        old(repair_worker).queue@,
                        final(repair_worker).queue@,
                    )
                },
    {
        let extents = inventory.list_extents_on_disk(disk_id);
        self.drain_extents(disk_id, extents, inventory, repair_worker)
    }
}

/// A drain asks before each relocation whether the disk is still draining, and goes on only
/// where it is; it seeks a target other than the disk itself for one extent after another,
/// and stops at the first time that the disk is not draining.
pub proof fn drains_ask_before_each_relocation(
    disk_id: DiskId,
    extents: Seq<DrainExtentEntry>,
    targets: Seq<Result<DiskId, String>>,
    removal: Result<(), String>,
    calls: Seq<DrainCall>,
    progress: DrainProgress,
    queue: Seq<RepairRequest>,
    after: Seq<RepairRequest>,
)
    requires
        drain_ran(disk_id, extents, targets, removal, calls, progress, queue, after),
    ensures
        targets.len() <= extents.len(),
        calls.len() >= 2 * targets.len(),
        forall|i: int|
            0 <= i < targets.len() ==> {
                &&& calls[2 * i] == (DrainCall::Draining { disk_id, answer: true })
                &&& calls[2 * i + 1] == (DrainCall::Select {
                    exclude: disk_id,
                    result: #[trigger] targets[i],
                })
            },
        targets.len() < extents.len() ==> calls.len() == 2 * targets.len() + 1 && calls[2
            * targets.len() as int] == (DrainCall::Draining { disk_id, answer: false }),
        targets.len() == extents.len() ==> calls.len() <= 2 * targets.len() + 1 && (calls.len() == 2
            * targets.len() + 1 <==> forall|i: int|
            0 <= i < targets.len() ==> (#[trigger] targets[i]) is Ok),
{
    lemma_seeking_steps(disk_id, targets);
    lemma_found(targets);
    lemma_found_all(targets);
    let sought = seeking(disk_id, targets);
    assert forall|i: int| 0 <= i < targets.len() implies {
        &&& calls[2 * i] == (DrainCall::Draining { disk_id, answer: true })
        &&& calls[2 * i + 1] == (DrainCall::Select {
            exclude: disk_id,
            result: #[trigger] targets[i],
        })
    } by {
        assert(calls[2 * i] == sought[2 * i]);
        assert(calls[2 * i + 1] == sought[2 * i + 1]);
    }
}

proof fn lemma_found_all(targets: Seq<Result<DiskId, String>>)
    ensures
        (forall|i: int| 0 <= i < targets.len() ==> (#[trigger] targets[i]) is Ok) ==> found(targets)
            == targets.len(),
    decreases targets.len(),
{
    if targets.len() > 0 && forall|i: int|
        0 <= i < targets.len() ==> (#[trigger] targets[i]) is Ok {
        let front = targets.drop_last();
        assert forall|i: int| 0 <= i < front.len() implies (#[trigger] front[i]) is Ok by {
            assert(front[i] == targets[i]);
        }
        lemma_found_all(front);
        assert(targets[targets.len() - 1] is Ok);
    }
}

proof fn lemma_seeking_steps(disk_id: DiskId, targets: Seq<Result<DiskId, String>>)
    ensures
        seeking(disk_id, targets).len() == 2 * targets.len(),
        forall|i: int|
            0 <= i < targets.len() ==> {
                &&& seeking(disk_id, targets)[2 * i] == (DrainCall::Draining {
                    disk_id,
                    answer: true,
                })
                &&& seeking(disk_id, targets)[2 * i + 1] == (DrainCall::Select {
                    exclude: disk_id,
                    result: #[trigger] targets[i],
                })
            },
    decreases targets.len(),
{
    if targets.len() > 0 {
        let front = targets.drop_last();
        lemma_seeking_steps(disk_id, front);
        let before = seeking(disk_id, front);
        let sought = seeking(disk_id, targets);
        assert forall|i: int| 0 <= i < targets.len() implies {
            &&& sought[2 * i] == (DrainCall::Draining { disk_id, answer: true })
            &&& sought[2 * i + 1] == (DrainCall::Select {
                exclude: disk_id,
                result: #[trigger] targets[i],
            })
        } by {
            if i < front.len() {
                assert(front[i] == targets[i]);
                assert(sought[2 * i] == before[2 * i]);
                assert(sought[2 * i + 1] == before[2 * i + 1]);
            }
        }
    }
}

/// The progress of a drain counts every extent for which a target was found as relocated and
/// every other one that was tried as failed.
pub proof fn drain_progress_counts_the_targets(
    disk_id: DiskId,
    total: u64,
    targets: Seq<Result<DiskId, String>>,
)
    requires
        targets.len() <= total,
    ensures
        ({
            let progress = drained(disk_id, total, targets);
            &&& progress.disk_id == disk_id
            &&& progress.total_extents == total
            &&& progress.relocated == targets.filter(|t: Result<DiskId, String>| t is Ok).len()
            &&& progress.failed == targets.filter(|t: Result<DiskId, String>| t is Err).len()
            &&& !progress.complete
        }),
{
    lemma_found_is_counted(targets);
    lemma_found(targets);
}

proof fn lemma_found_is_counted(targets: Seq<Result<DiskId, String>>)
    ensures
        found(targets) == targets.filter(|t: Result<DiskId, String>| t is Ok).len(),
        targets.len() - found(targets) == targets.filter(
            |t: Result<DiskId, String>| t is Err,
        ).len(),
    decreases targets.len(),
{
    reveal(Seq::filter);
    if targets.len() > 0 {
        lemma_found_is_counted(targets.drop_last());
    }
}

/// A relocation copies the version of the extent that is on the disk, from one of the healthy
/// sources, to the target, behind all repairs that are as urgent as a drain.
pub proof fn relocations_copy_the_extent(
    entry: DrainExtentEntry,
    target: DiskId,
    queue: Seq<RepairRequest>,
)
    requires
        crate::storage::background::repair::in_priority_order(queue),
    ensures
        ({
            let request = entry.relocation(target);
            let after = queue_after(queue, seq![entry], seq![Ok::<DiskId, String>(target)]);
            &&& request.extent_id == entry.extent_id
            &&& request.version == entry.version
            &&& request.target_disk_id == target
            &&& request.repair_type == (RepairType::Replication {
                healthy_sources: entry.healthy_sources,
            })
            &&& request.priority == 100
            &&& after.len() == queue.len() + 1
            &&& exists|p: int|
                {
                    &&& 0 <= p <= queue.len()
                    &&& after == #[trigger] queue.insert(p, request)
                    &&& forall|i: int| 0 <= i < p ==> (#[trigger] queue[i]).priority <= 100
                    &&& forall|i: int| p <= i < queue.len() ==> (#[trigger] queue[i]).priority > 100
                }
        }),
{
    let request = entry.relocation(target);
    let targets = seq![Ok::<DiskId, String>(target)];
    let extents = seq![entry];
    assert(targets.drop_last() =~= Seq::<Result<DiskId, String>>::empty());
    reveal_with_fuel(queue_after, 2);
    crate::storage::background::repair::queue_is_served_by_priority(queue, request);
    lemma_queue_position(queue, DRAIN_PRIORITY, 0);
    let p = queue_position(queue, DRAIN_PRIORITY, 0);
    assert(queue_after(queue, extents, targets) == queue.insert(p, request));
}

} // verus!
