//! Capacity rebalancing across disks.
//!
//! Takes a survey of disk utilization, generates a rebalance plan, and moves
//! extents gradually to equalize usage.
//!
//! Utilizations are fractions in floating point. They are kept here as the bits of an
//! `f64`, and the survey says which disks they make over-utilized or under-utilized.

use crate::collections::copy_items;
use crate::ids::{DiskId, ExtentId};
use crate::storage::background::repair::{
    queue_position, RepairRequest, RepairType, RepairWorker,
};
use vstd::prelude::*;

verus! {

/// The priority of a rebalance move: rebalance is less urgent than anything else.
pub const REBALANCE_PRIORITY: u32 = 200;

/// Configuration for the rebalance worker.
#[derive(Clone, Copy, Debug, PartialEq, Eq, Structural)]
pub struct RebalanceConfig {
    /// Maximum utilization difference (0.0-1.0) before triggering rebalance, as the bits
    /// of an `f64`.
    pub imbalance_threshold_bits: u64,
    /// Maximum number of extents to move per rebalance pass.
    pub max_moves_per_pass: usize,
    /// Tokens consumed per extent move.
    pub tokens_per_move: u64,
    /// Interval between rebalance checks in seconds.
    pub check_interval_secs: u64,
}

impl Default for RebalanceConfig {
    /// The threshold is a tenth.
    fn default() -> (r: Self)
        ensures
            r.imbalance_threshold_bits == 0x3FB9_9999_9999_999A,
            r.max_moves_per_pass == 100,
            r.tokens_per_move == 5,
            r.check_interval_secs == 300,
    {
        RebalanceConfig {
            imbalance_threshold_bits: 0x3FB9_9999_9999_999A,
            max_moves_per_pass: 100,
            tokens_per_move: 5,
            check_interval_secs: 300,
        }
    }
}

/// Disk utilization information.
#[derive(Clone, Copy, Debug, PartialEq, Eq, Structural)]
pub struct DiskUtilization {
    pub disk_id: DiskId,
    /// Used space in bytes.
    pub used_bytes: u64,
    /// Total space in bytes.
    pub total_bytes: u64,
    /// Number of extents on this disk.
    pub extent_count: u64,
}

/// What the utilizations of the disks amount to.
#[derive(Clone, Debug)]
pub struct RebalanceSurvey {
    /// Whether some disk is as far from the average as the threshold.
    pub imbalanced: bool,
    /// Disks above the average by more than half the threshold, the fullest first.
    pub over_utilized: Vec<DiskId>,
    /// Disks below the average by more than half the threshold, the fullest first.
    pub under_utilized: Vec<DiskId>,
    /// Maximum utilization difference observed, as the bits of an `f64`.
    pub max_imbalance_bits: u64,
}

/// An extent to be moved during rebalance.
#[derive(Clone, Copy, Debug, PartialEq, Eq, Structural)]
pub struct RebalanceMove {
    pub extent_id: ExtentId,
    pub version: u64,
    pub source_disk: DiskId,
    pub target_disk: DiskId,
}

impl RebalanceMove {
    /// The request to copy the extent to its target, from one of its healthy sources.
    pub open spec fn request(self, healthy_sources: Vec<DiskId>) -> RepairRequest {
        RepairRequest {
            extent_id: self.extent_id,
            version: self.version,
            target_disk_id: self.target_disk,
            repair_type: RepairType::Replication { healthy_sources },
            priority: REBALANCE_PRIORITY,
        }
    }
}

/// A plan for rebalancing extents across disks.
#[derive(Clone, Debug)]
pub struct RebalancePlan {
    /// Moves to be executed.
    pub moves: Vec<RebalanceMove>,
    /// Whether rebalance is needed.
    pub needed: bool,
    /// Maximum utilization difference observed, as the bits of an `f64`.
    pub max_imbalance_bits: u64,
}

impl RebalancePlan {
    /// Whether two plans are the same.
    pub open spec fn same(self, other: Self) -> bool {
        &&& self.moves@ == other.moves@
        &&& self.needed == other.needed
        &&& self.max_imbalance_bits == other.max_imbalance_bits
    }

    /// The same plan.
    pub fn copy(&self) -> (r: Self)
        ensures
            r.same(*self),
    {
        RebalancePlan {
            moves: copy_items(&self.moves),
            needed: self.needed,
            max_imbalance_bits: self.max_imbalance_bits,
        }
    }
}

/// A call that an inventory got, and its answer.
pub ghost enum RebalanceCall {
    Utilizations { disks: Seq<DiskUtilization> },
    Moveable { disk_id: DiskId, extents: Seq<(ExtentId, u64)> },
    Sources { extent_id: ExtentId, disks: Vec<DiskId> },
}

/// Lists disk utilization and extents.
pub trait RebalanceInventory {
    /// The calls that the inventory got so far. An implementation that is itself verified
    /// keeps this record; for any other it is what a bystander would have noted down.
    open spec fn calls(&self) -> Seq<RebalanceCall> {
        Seq::empty()
    }

    /// Get utilization for all disks.
    fn get_disk_utilizations(&mut self) -> (r: Vec<DiskUtilization>)
        ensures
            final(self).calls() == old(self).calls().push(
                (RebalanceCall::Utilizations { disks: r@ }),
            ),
    ;

    /// List moveable extents on a disk (returns extent_id, version pairs).
    fn list_moveable_extents(&mut self, disk_id: DiskId) -> (r: Vec<(ExtentId, u64)>)
        ensures
            final(self).calls() == old(self).calls().push(
                (RebalanceCall::Moveable { disk_id, extents: r@ }),
            ),
    ;

    /// Get healthy source disks for an extent (for replication repair).
    fn healthy_sources_for_extent(&mut self, extent_id: ExtentId) -> (r: Vec<DiskId>)
        ensures
            final(self).calls() == old(self).calls().push(
                (RebalanceCall::Sources { extent_id, disks: r }),
            ),
    ;
}

/// The calls by which the extents of the first disks are listed.
pub open spec fn listing_calls(
    disks: Seq<DiskId>,
    listed: Seq<Seq<(ExtentId, u64)>>,
) -> Seq<RebalanceCall> {
    Seq::new(
        listed.len(),
        |i: int| RebalanceCall::Moveable { disk_id: disks[i], extents: listed[i] },
    )
}

/// The calls by which the sources of the first moves are sought.
pub open spec fn source_calls(
    moves: Seq<RebalanceMove>,
    sources: Seq<Vec<DiskId>>,
) -> Seq<RebalanceCall> {
    Seq::new(
        sources.len(),
        |i: int| RebalanceCall::Sources { extent_id: moves[i].extent_id, disks: sources[i] },
    )
}

/// Whether a plan comes from what was listed on the first over-utilized disks: they are
/// listed in order, as long as the plan is not full; none where nothing is imbalanced.
pub open spec fn plan_ran(
    survey: RebalanceSurvey,
    max: nat,
    listed: Seq<Seq<(ExtentId, u64)>>,
    moves: Seq<RebalanceMove>,
) -> bool {
    &&& listed.len() <= survey.over_utilized@.len()
    &&& moves == planned(survey, listed, max)
    &&& !survey.imbalanced ==> listed.len() == 0
    &&& forall|k: int|
        0 <= k < listed.len() ==> (#[trigger] planned(survey, listed.take(k), max)).len() < max
    &&& survey.imbalanced && listed.len() < survey.over_utilized@.len() ==> moves.len() == max
}

/// The moves of all the extents of a disk to a target.
pub open spec fn disk_moves(
    source_disk: DiskId,
    extents: Seq<(ExtentId, u64)>,
    target_disk: DiskId,
) -> Seq<RebalanceMove> {
    Seq::new(
        extents.len(),
        |i: int|
            RebalanceMove {
                extent_id: extents[i].0,
                version: extents[i].1,
                source_disk,
                target_disk,
            },
    )
}

/// The moves of all the extents of the first disks to a target.
pub open spec fn all_moves(
    sources: Seq<DiskId>,
    listed: Seq<Seq<(ExtentId, u64)>>,
    target_disk: DiskId,
) -> Seq<RebalanceMove>
    decreases listed.len(),
{
    if listed.len() == 0 {
        Seq::empty()
    } else {
        all_moves(sources, listed.drop_last(), target_disk) + disk_moves(
            sources[listed.len() - 1],
            listed.last(),
            target_disk,
        )
    }
}

/// The first moves, up to a number of them.
pub open spec fn capped(moves: Seq<RebalanceMove>, max: nat) -> Seq<RebalanceMove> {
    if moves.len() <= max {
        moves
    } else {
        moves.take(max as int)
    }
}

/// The moves of a plan, given the extents that were listed on the first over-utilized
/// disks: all go to the first under-utilized disk.
pub open spec fn planned(
    survey: RebalanceSurvey,
    listed: Seq<Seq<(ExtentId, u64)>>,
    max: nat,
) -> Seq<RebalanceMove> {
    if survey.imbalanced && survey.under_utilized@.len() > 0 {
        capped(all_moves(survey.over_utilized@, listed, survey.under_utilized@[0]), max)
    } else {
        Seq::empty()
    }
}

/// A plan moves extents from over-utilized disks to an under-utilized one, and moves no
/// more of them than allowed.
pub proof fn plans_move_from_over_to_under(
    survey: RebalanceSurvey,
    listed: Seq<Seq<(ExtentId, u64)>>,
    max: nat,
)
    requires
        listed.len() <= survey.over_utilized@.len(),
    ensures
        planned(survey, listed, max).len() <= max,
        !survey.imbalanced ==> planned(survey, listed, max).len() == 0,
        forall|i: int|
            0 <= i < planned(survey, listed, max).len() ==> {
                &&& survey.over_utilized@.contains(
                    (#[trigger] planned(survey, listed, max)[i]).source_disk,
                )
                &&& survey.under_utilized@.contains(planned(survey, listed, max)[i].target_disk)
            },
{
    if survey.imbalanced && survey.under_utilized@.len() > 0 {
        let target = survey.under_utilized@[0];
        lemma_all_moves(survey.over_utilized@, listed, target);
        let all = all_moves(survey.over_utilized@, listed, target);
        assert forall|i: int| 0 <= i < planned(survey, listed, max).len() implies {
            &&& survey.over_utilized@.contains(
                (#[trigger] planned(survey, listed, max)[i]).source_disk,
            )
            &&& survey.under_utilized@.contains(planned(survey, listed, max)[i].target_disk)
        } by {
            assert(planned(survey, listed, max)[i] == all[i]);
        }
    }
}

proof fn lemma_all_moves(
    sources: Seq<DiskId>,
    listed: Seq<Seq<(ExtentId, u64)>>,
    target_disk: DiskId,
)
    requires
        listed.len() <= sources.len(),
    ensures
        forall|i: int|
            0 <= i < all_moves(sources, listed, target_disk).len() ==> sources.contains(
                (#[trigger] all_moves(sources, listed, target_disk)[i]).source_disk,
            ) && all_moves(sources, listed, target_disk)[i].target_disk == target_disk,
    decreases listed.len(),
{
    if listed.len() > 0 {
        lemma_all_moves(sources, listed.drop_last(), target_disk);
        let before = all_moves(sources, listed.drop_last(), target_disk);
        let all = all_moves(sources, listed, target_disk);
        let last = sources[listed.len() - 1];
        assert forall|i: int| 0 <= i < all.len() implies sources.contains(
            (#[trigger] all[i]).source_disk,
        ) && all[i].target_disk == target_disk by {
            if i < before.len() {
                assert(all[i] == before[i]);
            } else {
                assert(all[i].source_disk == last);
            }
        }
    }
}

/// Adds the moves of the extents of a disk to a target, as far as more are allowed.
pub fn add_moves(
    moves: &mut Vec<RebalanceMove>,
    source_disk: DiskId,
    extents: &Vec<(ExtentId, u64)>,
    target_disk: DiskId,
    max: usize,
)
    requires
        old(moves)@.len() <= max,
    ensures
        final(moves)@ == capped(
            old(moves)@ + disk_moves(source_disk, extents@, target_disk),
            max as nat,
        ),
{
    let ghost before = moves@;
    let ghost own = disk_moves(source_disk, extents@, target_disk);
    let mut i: usize = 0;
    assert(before + own.take(0) =~= before);
    while i < extents.len() && moves.len() < max
        invariant
            i <= extents@.len(),
            own == disk_moves(source_disk, extents@, target_disk),
            moves@ == before + own.take(i as int),
            moves@.len() <= max,
        decreases extents@.len() - i,
    {
        let (extent_id, version) = extents[i];
        moves.push(RebalanceMove { extent_id, version, source_disk, target_disk });
        i = i + 1;
        assert(moves@ =~= before + own.take(i as int));
    }
    assert(moves@ =~= capped(before + own, max as nat));
}

/// A repair queue after the requests of the first moves were put in it.
pub open spec fn queue_with_moves(
    queue: Seq<RepairRequest>,
    moves: Seq<RebalanceMove>,
    sources: Seq<Vec<DiskId>>,
) -> Seq<RepairRequest>
    decreases sources.len(),
{
    if sources.len() == 0 {
        queue
    } else {
        let before = queue_with_moves(queue, moves, sources.drop_last());
        before.insert(
            queue_position(before, REBALANCE_PRIORITY, 0),
            moves[sources.len() - 1].request(sources.last()),
        )
    }
}

/// Background rebalance worker.
///
/// Takes surveys of disk utilization and moves extents from over-utilized
/// to under-utilized disks.
#[derive(Clone, Debug)]
pub struct RebalanceWorker {
    pub config: RebalanceConfig,
    pub last_plan: Option<RebalancePlan>,
}

impl RebalanceWorker {
    /// Create a new rebalance worker.
    pub fn new(config: RebalanceConfig) -> (r: Self)
        ensures
            r.config == config,
            r.last_plan is None,
    {
        RebalanceWorker { config, last_plan: None }
    }

    /// Get configuration.
    pub fn config(&self) -> (r: &RebalanceConfig)
        ensures
            *r == self.config,
    {
        &self.config
    }

    /// Get the last generated plan.
    pub fn last_plan(&self) -> (r: &Option<RebalancePlan>)
        ensures
            *r == self.last_plan,
    {
        &self.last_plan
    }

    /// Generate a rebalance plan based on current disk utilization.
    ///
    /// Whatever extents the inventory lists on the first over-utilized disks, the plan is
    /// the one they give; disks are passed over only once the plan is full.
    pub fn generate_plan<I: RebalanceInventory>(
        &mut self,
        survey: &RebalanceSurvey,
        inventory: &mut I,
    ) -> (r: RebalancePlan)
        ensures
            final(self).config == old(self).config,
            final(self).last_plan is Some,
            final(self).last_plan->0.same(r),
            final(self).last_plan->0.moves@ == r.moves@,
            final(self).last_plan->0.needed == r.needed,
            final(self).last_plan->0.max_imbalance_bits == r.max_imbalance_bits,
            r.max_imbalance_bits == survey.max_imbalance_bits,
            r.needed == (r.moves@.len() > 0),
            exists|listed: Seq<Seq<(ExtentId, u64)>>|
                {
                    &&& #[trigger] plan_ran(
                        *survey,
                        old(self).config.max_moves_per_pass as nat,
                        listed,
                        r.moves@,
                    )
                    &&& final(inventory).calls() == old(inventory).calls() + listing_calls(
                        survey.over_utilized@,
                        listed,
                    )
                },
    {
        let max = self.config.max_moves_per_pass;
        let ghost called = inventory.calls();
        let ghost over = survey.over_utilized@;
        let mut moves: Vec<RebalanceMove> = Vec::new();
        let ghost mut listed: Seq<Seq<(ExtentId, u64)>> = Seq::empty();
        assert(moves@ =~= planned(*survey, listed, max as nat));
        assert(called + listing_calls(over, listed) =~= called);
        if survey.imbalanced {
            let mut i: usize = 0;
            while i < survey.over_utilized.len() && moves.len() < max
                invariant
                    survey.imbalanced,
                    over == survey.over_utilized@,
                    i <= over.len(),
                    listed.len() == i,
                    inventory.calls() == called + listing_calls(over, listed),
                    forall|k: int|
                        0 <= k < listed.len() ==> (#[trigger] planned(
                            *survey,
                            listed.take(k),
                            max as nat,
                        )).len() < max,
                    moves@.len() <= max,
                    moves@ == planned(*survey, listed, max as nat),
                decreases over.len() - i,
            {
                let source = survey.over_utilized[i];
                let extents = inventory.list_moveable_extents(source);
                let ghost before = moves@;
                let ghost earlier = listed;
                proof {
                    listed = listed.push(extents@);
                    assert(listed.drop_last() =~= earlier);
                    assert(inventory.calls() =~= called + listing_calls(over, listed));
                    assert forall|k: int| 0 <= k < listed.len() implies (#[trigger] planned(
                        *survey,
                        listed.take(k),
                        max as nat,
                    )).len() < max by {
                        if k < i {
                            assert(listed.take(k) =~= earlier.take(k));
                        } else {
                            assert(listed.take(k) =~= earlier);
                        }
                    }
                }
                if survey.under_utilized.len() > 0 {
                    let target = survey.under_utilized[0];
                    add_moves(&mut moves, source, &extents, target, max);
                    assert(before == all_moves(over, earlier, target)) by {
                        assert(before.len() < max);
                    }
                }
                assert(moves@ =~= planned(*survey, listed, max as nat));
                i = i + 1;
            }
        }
        assert(plan_ran(*survey, max as nat, listed, moves@));
        let needed = moves.len() > 0;
        let plan = RebalancePlan {
            moves,
            needed,
            max_imbalance_bits: survey.max_imbalance_bits,
        };
        self.last_plan = Some(plan.copy());
        plan
    }

    /// Submits a move to the repair worker.
    pub fn submit_move(
        mv: &RebalanceMove,
        healthy_sources: Vec<DiskId>,
        repair_worker: &mut RepairWorker,
    )
        ensures
            final(repair_worker).queue@ == old(repair_worker).queue@.insert(
                queue_position(old(repair_worker).queue@, REBALANCE_PRIORITY, 0),
                mv.request(healthy_sources),
            ),
            final(repair_worker).config == old(repair_worker).config,
            final(repair_worker).completed == old(repair_worker).completed,
            old(repair_worker).wf() ==> final(repair_worker).wf(),
    {
        repair_worker.enqueue(
            RepairRequest {
                extent_id: mv.extent_id,
                version: mv.version,
                target_disk_id: mv.target_disk,
                repair_type: RepairType::Replication { healthy_sources },
                priority: REBALANCE_PRIORITY,
            },
        );
    }

    /// Execute a rebalance plan by submitting moves to the repair worker.
    pub fn execute_plan<I: RebalanceInventory>(
        &self,
        plan: &RebalancePlan,
        inventory: &mut I,
        repair_worker: &mut RepairWorker,
    ) -> (r: usize)
        ensures
            r == plan.moves@.len(),
            final(repair_worker).config == old(repair_worker).config,
            final(repair_worker).completed == old(repair_worker).completed,
            old(repair_worker).wf() ==> final(repair_worker).wf(),
            exists|sources: Seq<Vec<DiskId>>|
                {
                    &&& sources.len() == plan.moves@.len()
                    &&& final(inventory).calls() == old(inventory).calls() + source_calls(
                        plan.moves@,
                        sources,
                    )
                    &&& final(repair_worker).queue@ == #[trigger] queue_with_moves(
                        old(repair_worker).queue@,
                        plan.moves@,
                        sources,
                    )
                },
    {
        let ghost queued = repair_worker.queue@;
        let ghost called = inventory.calls();
        let ghost mut sources: Seq<Vec<DiskId>> = Seq::empty();
        let mut submitted: usize = 0;
        assert(called + source_calls(plan.moves@, sources) =~= called);
        while submitted < plan.moves.len()
            invariant
                submitted <= plan.moves@.len(),
                sources.len() == submitted,
                inventory.calls() == called + source_calls(plan.moves@, sources),
                queued == old(repair_worker).queue@,
                repair_worker.queue@ == queue_with_moves(queued, plan.moves@, sources),
                repair_worker.config == old(repair_worker).config,
                repair_worker.completed == old(repair_worker).completed,
                old(repair_worker).wf() ==> repair_worker.wf(),
            decreases plan.moves@.len() - submitted,
        {
            let mv = plan.moves[submitted];
            let healthy = inventory.healthy_sources_for_extent(mv.extent_id);
            proof {
                let earlier = sources;
                sources = sources.push(healthy);
                assert(sources.drop_last() =~= earlier);
                assert(inventory.calls() =~= called + source_calls(plan.moves@, sources));
            }
            Self::submit_move(&mv, healthy, repair_worker);
            submitted = submitted + 1;
        }
        submitted
    }

    /// Run a single rebalance pass: generate plan and execute.
    pub fn rebalance_pass<I: RebalanceInventory>(
        &mut self,
        survey: &RebalanceSurvey,
        inventory: &mut I,
        repair_worker: &mut RepairWorker,
    ) -> (r: RebalancePlan)
        ensures
            final(self).config == old(self).config,
            final(self).last_plan is Some,
            final(self).last_plan->0.same(r),
            final(self).last_plan->0.moves@ == r.moves@,
            final(self).last_plan->0.needed == r.needed,
            final(self).last_plan->0.max_imbalance_bits == r.max_imbalance_bits,
            r.max_imbalance_bits == survey.max_imbalance_bits,
            r.needed == (r.moves@.len() > 0),
            final(repair_worker).config == old(repair_worker).config,
            final(repair_worker).completed == old(repair_worker).completed,
            old(repair_worker).wf() ==> final(repair_worker).wf(),
            exists|listed: Seq<Seq<(ExtentId, u64)>>, sources: Seq<Vec<DiskId>>|
                {
                    &&& #[trigger] plan_ran(
                        *survey,
                        old(self).config.max_moves_per_pass as nat,
                        listed,
                        r.moves@,
                    )
                    &&& sources.len() == r.moves@.len()
                    &&& final(inventory).calls() == old(inventory).calls() + listing_calls(
                        survey.over_utilized@,
                        listed,
                    ) + source_calls(r.moves@, sources)
                    &&& final(repair_worker).queue@ == #[trigger] queue_with_moves(
                        old(repair_worker).queue@,
                        r.moves@,
                        sources,
                    )
                },
    {
        let plan = self.generate_plan(survey, inventory);
        if plan.needed {
            self.execute_plan(&plan, inventory, repair_worker);
        } else {
            proof {
                let sources = Seq::<Vec<DiskId>>::empty();
                assert(inventory.calls() + source_calls(plan.moves@, sources)
                    =~= inventory.calls());
                assert(repair_worker.queue@ == queue_with_moves(
                    repair_worker.queue@,
                    plan.moves@,
                    sources,
                ));
            }
        }
        plan
    }
}

/// A plan moves what was listed and nothing else: each move is of an extent, in the version
/// that was listed, from the over-utilized disk that it was listed on, to the first
/// under-utilized one; and unless the plan is full, there is one for every extent listed.
pub proof fn plans_move_what_was_listed(
    survey: RebalanceSurvey,
    listed: Seq<Seq<(ExtentId, u64)>>,
    max: nat,
)
    requires
        listed.len() <= survey.over_utilized@.len(),
        survey.imbalanced,
        survey.under_utilized@.len() > 0,
    ensures
        ({
            let moves = planned(survey, listed, max);
            &&& moves.len() <= max
            &&& forall|i: int| 0 <= i < moves.len() ==> was_listed(survey, listed, #[trigger] moves[i])
            &&& moves.len() < max ==> forall|d: int, x: int|
                0 <= d < listed.len() && 0 <= x < listed[d].len() ==> moves.contains(
                    RebalanceMove {
                        extent_id: (#[trigger] listed[d][x]).0,
                        version: listed[d][x].1,
                        source_disk: survey.over_utilized@[d],
                        target_disk: survey.under_utilized@[0],
                    },
                )
        }),
{
    let target = survey.under_utilized@[0];
    let all = all_moves(survey.over_utilized@, listed, target);
    let moves = planned(survey, listed, max);
    lemma_all_moves_listed(survey, listed);
    assert forall|i: int| 0 <= i < moves.len() implies was_listed(
        survey,
        listed,
        #[trigger] moves[i],
    ) by {
        assert(moves[i] == all[i]);
    }
}

/// Whether a move is of an extent that was listed on its source, to the first under-utilized
/// disk.
pub open spec fn was_listed(
    survey: RebalanceSurvey,
    listed: Seq<Seq<(ExtentId, u64)>>,
    mv: RebalanceMove,
) -> bool {
    &&& mv.target_disk == survey.under_utilized@[0]
    &&& exists|d: int, x: int|
        0 <= d < listed.len() && 0 <= x < listed[d].len() && mv.source_disk
            == survey.over_utilized@[d] && (#[trigger] listed[d][x]).0 == mv.extent_id
            && listed[d][x].1 == mv.version
}

proof fn lemma_all_moves_listed(survey: RebalanceSurvey, listed: Seq<Seq<(ExtentId, u64)>>)
    requires
        listed.len() <= survey.over_utilized@.len(),
        survey.under_utilized@.len() > 0,
    ensures
        ({
            let target = survey.under_utilized@[0];
            let all = all_moves(survey.over_utilized@, listed, target);
            &&& forall|i: int| 0 <= i < all.len() ==> was_listed(survey, listed, #[trigger] all[i])
            &&& forall|d: int, x: int|
                0 <= d < listed.len() && 0 <= x < listed[d].len() ==> all.contains(
                    RebalanceMove {
                        extent_id: (#[trigger] listed[d][x]).0,
                        version: listed[d][x].1,
                        source_disk: survey.over_utilized@[d],
                        target_disk: target,
                    },
                )
        }),
    decreases listed.len(),
{
    if listed.len() > 0 {
        let front = listed.drop_last();
        let last = listed.len() - 1;
        lemma_all_moves_listed(survey, front);
        let target = survey.under_utilized@[0];
        let before = all_moves(survey.over_utilized@, front, target);
        let all = all_moves(survey.over_utilized@, listed, target);
        let own = disk_moves(survey.over_utilized@[last], listed[last], target);
        assert(listed.last() == listed[last]);
        assert(all == before + own);
        assert forall|i: int| 0 <= i < all.len() implies was_listed(
            survey,
            listed,
            #[trigger] all[i],
        ) by {
            if i < before.len() {
                assert(all[i] == before[i]);
                let (d, x) = choose|d: int, x: int|
                    0 <= d < front.len() && 0 <= x < front[d].len() && before[i].source_disk
                        == survey.over_utilized@[d] && (#[trigger] front[d][x]).0
                        == before[i].extent_id && front[d][x].1 == before[i].version;
                assert(listed[d][x] == front[d][x]);
            } else {
                let x = i - before.len();
                assert(all[i] == own[x]);
                assert(listed[last][x].0 == all[i].extent_id);
            }
        }
        assert forall|d: int, x: int|
            0 <= d < listed.len() && 0 <= x < listed[d].len() implies all.contains(
            RebalanceMove {
                extent_id: (#[trigger] listed[d][x]).0,
                version: listed[d][x].1,
                source_disk: survey.over_utilized@[d],
                target_disk: target,
            },
        ) by {
            let mv = RebalanceMove {
                extent_id: listed[d][x].0,
                version: listed[d][x].1,
                source_disk: survey.over_utilized@[d],
                target_disk: target,
            };
            if d < last {
                assert(front[d][x] == listed[d][x]);
                assert(before.contains(mv));
                let i = choose|i: int| 0 <= i < before.len() && before[i] == mv;
                assert(all[i] == mv);
            } else {
                assert(own[x] == mv);
                assert(all[before.len() + x] == mv);
            }
        }
    }
}

/// Carrying out a plan puts one request for each move in the repair queue, to copy the
/// extent's version from its healthy sources to the move's target, at the lowest urgency, and
/// loses none that was there.
pub proof fn moves_are_queued_as_planned(
    queue: Seq<RepairRequest>,
    moves: Seq<RebalanceMove>,
    sources: Seq<Vec<DiskId>>,
)
    requires
        sources.len() <= moves.len(),
    ensures
        ({
            let after = queue_with_moves(queue, moves, sources);
            &&& after.len() == queue.len() + sources.len()
            &&& forall|i: int|
                0 <= i < sources.len() ==> after.contains(
                    RepairRequest {
                        extent_id: moves[i].extent_id,
                        version: moves[i].version,
                        target_disk_id: moves[i].target_disk,
                        repair_type: RepairType::Replication {
                            healthy_sources: #[trigger] sources[i],
                        },
                        priority: 200,
                    },
                )
            &&& forall|r: RepairRequest| #[trigger] queue.contains(r) ==> after.contains(r)
        }),
    decreases sources.len(),
{
    if sources.len() > 0 {
        let front = sources.drop_last();
        let last = sources.len() - 1;
        moves_are_queued_as_planned(queue, moves, front);
        let before = queue_with_moves(queue, moves, front);
        let after = queue_with_moves(queue, moves, sources);
        let p = queue_position(before, REBALANCE_PRIORITY, 0);
        let new = moves[last].request(sources[last]);
        crate::storage::background::repair::lemma_queue_position(before, REBALANCE_PRIORITY, 0);
        assert(sources.last() == sources[last]);
        assert(after == before.insert(p, new));
        assert(after[p] == new);
        assert forall|r: RepairRequest| #[trigger] before.contains(r) implies after.contains(
            r,
        ) by {
            let i = before.index_of(r);
            assert(after[if i < p { i } else { i + 1 }] == r);
        }
        assert forall|i: int| 0 <= i < sources.len() implies after.contains(
            RepairRequest {
                extent_id: moves[i].extent_id,
                version: moves[i].version,
                target_disk_id: moves[i].target_disk,
                repair_type: RepairType::Replication { healthy_sources: #[trigger] sources[i] },
                priority: 200,
            },
        ) by {
            if i < last {
                assert(front[i] == sources[i]);
                let r = RepairRequest {
                    extent_id: moves[i].extent_id,
                    version: moves[i].version,
                    target_disk_id: moves[i].target_disk,
                    repair_type: RepairType::Replication { healthy_sources: front[i] },
                    priority: 200,
                };
                assert(before.contains(r));
            }
        }
    }
}

/// Disks are listed in the order of the survey as long as the plan has room: every disk that
/// was listed was listed while it had some, and every disk was listed unless it has none.
/// Without an imbalance none is listed.
pub proof fn plans_list_disks_while_there_is_room(
    survey: RebalanceSurvey,
    max: nat,
    listed: Seq<Seq<(ExtentId, u64)>>,
    moves: Seq<RebalanceMove>,
)
    requires
        plan_ran(survey, max, listed, moves),
    ensures
        moves.len() <= max,
        !survey.imbalanced ==> listed.len() == 0 && moves.len() == 0,
        survey.under_utilized@.len() == 0 ==> moves.len() == 0,
        survey.imbalanced && moves.len() < max ==> listed.len() == survey.over_utilized@.len(),
        forall|k: int|
            0 <= k < listed.len() ==> (#[trigger] planned(survey, listed.take(k), max)).len() < max,
        forall|i: int|
            0 <= i < listing_calls(survey.over_utilized@, listed).len() ==> (
            #[trigger] listing_calls(survey.over_utilized@, listed)[i]) == (
            RebalanceCall::Moveable { disk_id: survey.over_utilized@[i], extents: listed[i] }),
        listing_calls(survey.over_utilized@, listed).len() == listed.len(),
{
}

/// The healthy sources are sought once for each move, in order.
pub proof fn sources_are_sought_for_each_move(moves: Seq<RebalanceMove>, sources: Seq<Vec<DiskId>>)
    requires
        sources.len() <= moves.len(),
    ensures
        source_calls(moves, sources).len() == sources.len(),
        forall|i: int|
            0 <= i < sources.len() ==> (#[trigger] source_calls(moves, sources)[i]) == (
            RebalanceCall::Sources { extent_id: moves[i].extent_id, disks: sources[i] }),
{
}

} // verus!
