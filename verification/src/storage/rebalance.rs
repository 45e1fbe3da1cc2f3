//! Rebalancing of volumes between nodes.
//!
//! Which nodes are overloaded is a question of ratios that the caller answers; which
//! volumes then move where, and how far each move has got, is kept here.

use crate::text::{join2, same_text};
use crate::types::{NodeInfo, NodeState, RaftNodeId, ZfsHealthState};
use vstd::prelude::*;

verus! {

/// Configuration for rebalance throttling and concurrency limits.
#[derive(Clone, Debug)]
pub struct RebalanceConfig {
    /// Maximum number of concurrent moves per node (source or target).
    pub max_concurrent_moves_per_node: u32,
    /// Bandwidth throttle string (e.g. "1Gbps"). Informational for ZFS send.
    pub throttle_bandwidth: String,
}

impl Default for RebalanceConfig {
    fn default() -> (r: Self)
        ensures
            r.max_concurrent_moves_per_node == 1,
            r.throttle_bandwidth@ == "1Gbps"@,
    {
        RebalanceConfig {
            max_concurrent_moves_per_node: 1,
            throttle_bandwidth: "1Gbps".to_owned(),
        }
    }
}

/// The lifecycle state of a single rebalance move.
#[derive(Clone, Debug, PartialEq, Eq)]
pub enum MoveState {
    Pending,
    Syncing,
    Promoting,
    Completed,
    Failed(String),
}

impl MoveState {
    /// Whether the move is over.
    pub open spec fn is_over(self) -> bool {
        self is Completed || self is Failed
    }

    /// The state in words.
    pub open spec fn text(self) -> Seq<char> {
        match self {
            MoveState::Pending => "pending"@,
            MoveState::Syncing => "syncing"@,
            MoveState::Promoting => "promoting"@,
            MoveState::Completed => "completed"@,
            MoveState::Failed(reason) => "failed: "@ + reason@,
        }
    }

    /// The state in words.
    pub fn to_text(&self) -> (s: String)
        ensures
            s@ == self.text(),
    {
        match self {
            MoveState::Pending => "pending".to_owned(),
            MoveState::Syncing => "syncing".to_owned(),
            MoveState::Promoting => "promoting".to_owned(),
            MoveState::Completed => "completed".to_owned(),
            MoveState::Failed(reason) => join2("failed: ", reason.as_str()),
        }
    }
}

/// A single volume move from one node to another.
#[derive(Clone, Debug)]
pub struct RebalanceMove {
    pub volume_name: String,
    pub source_node: RaftNodeId,
    pub target_node: RaftNodeId,
    pub state: MoveState,
    pub bytes_transferred: u64,
    pub total_bytes: u64,
}

/// Simplified volume record for move computation; mirrors the raft state.
#[derive(Clone, Debug)]
pub struct VolumeInfo {
    pub name: String,
    pub size_bytes: u64,
    pub replicas: u32,
    pub placement: Vec<RaftNodeId>,
}

/// Cluster state snapshot used for rebalance computation.
#[derive(Clone, Debug)]
pub struct ClusterState {
    pub nodes: Vec<NodeInfo>,
    pub volumes: Vec<VolumeInfo>,
}

/// Whether the load of a node counts: it is healthy and has capacity.
pub open spec fn is_weighed(node: NodeInfo) -> bool {
    node.state is Healthy && node.zfs_health is Online && node.capacity_bytes > 0
}

/// The bytes in use on the first nodes that count.
pub open spec fn used_in(nodes: Seq<NodeInfo>) -> nat
    decreases nodes.len(),
{
    if nodes.len() == 0 {
        0
    } else {
        used_in(nodes.drop_last()) + (if is_weighed(nodes.last()) {
            nodes.last().used_bytes as nat
        } else {
            0
        })
    }
}

/// The capacity of the first nodes that count.
pub open spec fn capacity_in(nodes: Seq<NodeInfo>) -> nat
    decreases nodes.len(),
{
    if nodes.len() == 0 {
        0
    } else {
        capacity_in(nodes.drop_last()) + (if is_weighed(nodes.last()) {
            nodes.last().capacity_bytes as nat
        } else {
            0
        })
    }
}

/// The positions of the nodes that count.
pub open spec fn weighed_in(nodes: Seq<NodeInfo>) -> Seq<usize>
    decreases nodes.len(),
{
    if nodes.len() == 0 {
        Seq::empty()
    } else if is_weighed(nodes.last()) {
        weighed_in(nodes.drop_last()).push((nodes.len() - 1) as usize)
    } else {
        weighed_in(nodes.drop_last())
    }
}

/// The load of a cluster: what the mean usage ratio, and the deviation of each node from
/// it, are made of.
#[derive(Clone, Debug)]
pub struct ClusterLoad {
    /// The positions of the nodes that count.
    pub nodes: Vec<usize>,
    pub total_used: u128,
    pub total_capacity: u128,
}

/// The load of a cluster. Only healthy nodes with non-zero capacity are considered.
pub fn cluster_load(nodes: &Vec<NodeInfo>) -> (r: ClusterLoad)
    ensures
        r.nodes@ == weighed_in(nodes@),
        r.total_used == used_in(nodes@),
        r.total_capacity == capacity_in(nodes@),
        r.nodes@.len() > 0 ==> r.total_capacity > 0,
{
    let mut weighed: Vec<usize> = Vec::new();
    let mut total_used: u128 = 0;
    let mut total_capacity: u128 = 0;
    let mut i: usize = 0;
    while i < nodes.len()
        invariant
            i <= nodes@.len(),
            weighed@ == weighed_in(nodes@.take(i as int)),
            total_used == used_in(nodes@.take(i as int)),
            total_capacity == capacity_in(nodes@.take(i as int)),
            weighed@.len() > 0 ==> total_capacity > 0,
            total_used <= i * 0xffff_ffff_ffff_ffff,
            total_capacity <= i * 0xffff_ffff_ffff_ffff,
        decreases nodes@.len() - i,
    {
        proof {
            assert(nodes@.take(i + 1).drop_last() =~= nodes@.take(i as int));
            assert(i * 0xffff_ffff_ffff_ffff + 0xffff_ffff_ffff_ffff
                <= 0xffff_ffff_ffff_ffff_ffff_ffff_ffff_ffff) by (nonlinear_arith)
                requires
                    i < 0xffff_ffff_ffff_ffff,
            ;
        }
        let node = &nodes[i];
        if matches!(node.state, NodeState::Healthy) && matches!(
            node.zfs_health,
            ZfsHealthState::Online
        ) && node.capacity_bytes > 0 {
            weighed.push(i);
            total_used = total_used + node.used_bytes as u128;
            total_capacity = total_capacity + node.capacity_bytes as u128;
        }
        i = i + 1;
    }
    assert(nodes@.take(nodes@.len() as int) =~= nodes@);
    ClusterLoad { nodes: weighed, total_used, total_capacity }
}

/// The states of a move that an operation is about.
#[derive(Clone, Copy, Debug, PartialEq, Eq, Structural)]
pub enum MoveFilter {
    Pending,
    Syncing,
    SyncingOrPromoting,
    Unfinished,
}

impl MoveFilter {
    /// Whether a state is among the ones that are meant.
    pub open spec fn takes(self, state: MoveState) -> bool {
        match self {
            MoveFilter::Pending => state is Pending,
            MoveFilter::Syncing => state is Syncing,
            MoveFilter::SyncingOrPromoting => state is Syncing || state is Promoting,
            MoveFilter::Unfinished => !state.is_over(),
        }
    }

    fn accepts(&self, state: &MoveState) -> (r: bool)
        ensures
            r == self.takes(*state),
    {
        match *self {
            MoveFilter::Pending => matches!(state, MoveState::Pending),
            MoveFilter::Syncing => matches!(state, MoveState::Syncing),
            MoveFilter::SyncingOrPromoting => matches!(
                state,
                MoveState::Syncing | MoveState::Promoting
            ),
            MoveFilter::Unfinished => !matches!(
                state,
                MoveState::Completed | MoveState::Failed(_)
            ),
        }
    }
}

/// The position of the first move of a volume in one of the states, or the number of moves.
pub open spec fn first_move(
    moves: Seq<RebalanceMove>,
    name: Seq<char>,
    filter: MoveFilter,
    from: int,
) -> int
    decreases moves.len() - from,
{
    if from >= moves.len() || (moves[from].volume_name@ == name && filter.takes(
        moves[from].state,
    )) {
        from
    } else {
        first_move(moves, name, filter, from + 1)
    }
}

/// Whether there is a move of a volume in one of the states.
pub open spec fn has_move(moves: Seq<RebalanceMove>, name: Seq<char>, filter: MoveFilter) -> bool {
    first_move(moves, name, filter, 0) < moves.len()
}

/// How often a node takes part, as source or target, in moves that are not over.
pub open spec fn load(moves: Seq<RebalanceMove>, node: RaftNodeId) -> nat
    decreases moves.len(),
{
    if moves.len() == 0 {
        0
    } else {
        load(moves.drop_last(), node) + move_load(moves.last(), node)
    }
}

/// How often a node takes part in a move that is not over.
pub open spec fn move_load(m: RebalanceMove, node: RaftNodeId) -> nat {
    if m.state.is_over() {
        0
    } else {
        (if m.source_node == node {
            1nat
        } else {
            0nat
        }) + (if m.target_node == node {
            1nat
        } else {
            0nat
        })
    }
}

/// The node with a number; the last one where several have it.
pub open spec fn node_with_id(nodes: Seq<NodeInfo>, id: RaftNodeId) -> Option<NodeInfo>
    decreases nodes.len(),
{
    if nodes.len() == 0 {
        None
    } else if nodes.last().id == id {
        Some(nodes.last())
    } else {
        node_with_id(nodes.drop_last(), id)
    }
}

/// Whether a volume may move to a node: it is not known to be out of order.
pub open spec fn may_receive(nodes: Seq<NodeInfo>, id: RaftNodeId) -> bool {
    match node_with_id(nodes, id) {
        Some(n) => n.is_eligible(),
        None => true,
    }
}

/// The overloaded nodes of a volume that are not part of its ideal placement, in order.
pub open spec fn leaving(
    volume: VolumeInfo,
    overloaded: Seq<RaftNodeId>,
    ideal: Seq<RaftNodeId>,
) -> Seq<RaftNodeId> {
    volume.placement@.filter(|n: RaftNodeId| overloaded.contains(n) && !ideal.contains(n))
}

/// The nodes of a volume's ideal placement that it is not on, in order.
pub open spec fn joining(volume: VolumeInfo, ideal: Seq<RaftNodeId>) -> Seq<RaftNodeId> {
    ideal.filter(|n: RaftNodeId| !volume.placement@.contains(n))
}

/// The move of a volume from one node to another, still to be started.
pub open spec fn new_move(volume: VolumeInfo, source: RaftNodeId, target: RaftNodeId) -> RebalanceMove {
    RebalanceMove {
        volume_name: volume.name,
        source_node: source,
        target_node: target,
        state: MoveState::Pending,
        bytes_transferred: 0,
        total_bytes: volume.size_bytes,
    }
}

/// The moves that are planned after the first pairs of leaving and joining nodes of a
/// volume: a pair is passed over where one of its nodes already takes part in as many
/// moves as allowed, or where the target is out of order.
pub open spec fn pairs_planned(
    active: Seq<RebalanceMove>,
    plan: Seq<RebalanceMove>,
    nodes: Seq<NodeInfo>,
    max: u32,
    volume: VolumeInfo,
    sources: Seq<RaftNodeId>,
    targets: Seq<RaftNodeId>,
    count: int,
) -> Seq<RebalanceMove>
    decreases count,
{
    if count <= 0 {
        plan
    } else {
        let before = pairs_planned(
            active,
            plan,
            nodes,
            max,
            volume,
            sources,
            targets,
            count - 1,
        );
        let source = sources[count - 1];
        let target = targets[count - 1];
        if load(active + before, source) >= max || load(active + before, target) >= max
            || !may_receive(nodes, target) {
            before
        } else {
            before.push(new_move(volume, source, target))
        }
    }
}

/// The number of pairs of leaving and joining nodes.
pub open spec fn pair_count(sources: Seq<RaftNodeId>, targets: Seq<RaftNodeId>) -> int {
    if sources.len() <= targets.len() {
        sources.len() as int
    } else {
        targets.len() as int
    }
}

/// The moves that are planned for the first volumes.  A volume without an ideal
/// placement stays where it is.
pub open spec fn volumes_planned(
    active: Seq<RebalanceMove>,
    nodes: Seq<NodeInfo>,
    max: u32,
    volumes: Seq<VolumeInfo>,
    overloaded: Seq<RaftNodeId>,
    ideals: Seq<Option<Vec<RaftNodeId>>>,
    count: int,
) -> Seq<RebalanceMove>
    decreases count,
{
    if count <= 0 {
        Seq::empty()
    } else {
        let before = volumes_planned(active, nodes, max, volumes, overloaded, ideals, count - 1);
        match ideals[count - 1] {
            None => before,
            Some(ideal) => {
                let volume = volumes[count - 1];
                let sources = leaving(volume, overloaded, ideal@);
                let targets = joining(volume, ideal@);
                pairs_planned(
                    active,
                    before,
                    nodes,
                    max,
                    volume,
                    sources,
                    targets,
                    pair_count(sources, targets),
                )
            },
        }
    }
}

proof fn lemma_load_push(moves: Seq<RebalanceMove>, m: RebalanceMove, node: RaftNodeId)
    ensures
        load(moves.push(m), node) == load(moves, node) + move_load(m, node),
{
    assert(moves.push(m).drop_last() =~= moves);
}

/// Whether a plan keeps to the limit: it puts no node into more moves than allowed.
pub open spec fn within_limit(
    active: Seq<RebalanceMove>,
    plan: Seq<RebalanceMove>,
    max: u32,
) -> bool {
    forall|node: RaftNodeId|
        #![trigger load(active + plan, node)]
        load(active + plan, node) <= max || load(active + plan, node) == load(active, node)
}

/// Whether a move is one that the state of the cluster asks for: of one of the volumes,
/// off an overloaded node that it is on, to a node that it is not on and that is not
/// known to be out of order.
pub open spec fn is_justified(
    m: RebalanceMove,
    nodes: Seq<NodeInfo>,
    volumes: Seq<VolumeInfo>,
    overloaded: Seq<RaftNodeId>,
) -> bool {
    exists|v: int|
        {
            &&& 0 <= v < volumes.len()
            &&& (#[trigger] volumes[v]).placement@.contains(m.source_node)
            &&& !volumes[v].placement@.contains(m.target_node)
            &&& overloaded.contains(m.source_node)
            &&& may_receive(nodes, m.target_node)
            &&& m == new_move(volumes[v], m.source_node, m.target_node)
        }
}

proof fn lemma_pairs(
    active: Seq<RebalanceMove>,
    plan: Seq<RebalanceMove>,
    nodes: Seq<NodeInfo>,
    max: u32,
    volumes: Seq<VolumeInfo>,
    v: int,
    overloaded: Seq<RaftNodeId>,
    ideal: Seq<RaftNodeId>,
    count: int,
)
    requires
        0 <= v < volumes.len(),
        0 <= count <= pair_count(
            leaving(volumes[v], overloaded, ideal),
            joining(volumes[v], ideal),
        ),
        within_limit(active, plan, max),
        forall|i: int|
            0 <= i < plan.len() ==> is_justified(#[trigger] plan[i], nodes, volumes, overloaded),
    ensures
        ({
            let sources = leaving(volumes[v], overloaded, ideal);
            let targets = joining(volumes[v], ideal);
            let after = pairs_planned(
                active,
                plan,
                nodes,
                max,
                volumes[v],
                sources,
                targets,
                count,
            );
            &&& within_limit(active, after, max)
            &&& forall|i: int|
                0 <= i < after.len() ==> is_justified(
                    #[trigger] after[i],
                    nodes,
                    volumes,
                    overloaded,
                )
        }),
    decreases count,
{
    if count > 0 {
        lemma_pairs(active, plan, nodes, max, volumes, v, overloaded, ideal, count - 1);
        let volume = volumes[v];
        let keep_source = |n: RaftNodeId| overloaded.contains(n) && !ideal.contains(n);
        let keep_target = |n: RaftNodeId| !volume.placement@.contains(n);
        let sources = leaving(volume, overloaded, ideal);
        let targets = joining(volume, ideal);
        let before = pairs_planned(
            active,
            plan,
            nodes,
            max,
            volume,
            sources,
            targets,
            count - 1,
        );
        let after = pairs_planned(active, plan, nodes, max, volume, sources, targets, count);
        let source = sources[count - 1];
        let target = targets[count - 1];
        assert(sources.contains(source));
        assert(targets.contains(target));
        lemma_filter_member(volume.placement@, keep_source, source);
        lemma_filter_member(ideal, keep_target, target);
        if after != before {
            let m = new_move(volume, source, target);
            assert(after == before.push(m));
            assert(source != target);
            assert forall|node: RaftNodeId|
                #![trigger load(active + after, node)]
                load(active + after, node) <= max || load(active + after, node) == load(
                    active,
                    node,
                ) by {
                assert(active + after =~= (active + before).push(m));
                lemma_load_push(active + before, m, node);
            }
            assert forall|i: int| 0 <= i < after.len() implies is_justified(
                #[trigger] after[i],
                nodes,
                volumes,
                overloaded,
            ) by {
                if i < before.len() {
                    assert(after[i] == before[i]);
                } else {
                    assert(volumes[v].placement@.contains(m.source_node));
                }
            }
        }
    }
}

proof fn lemma_filter_member(s: Seq<RaftNodeId>, keep: spec_fn(RaftNodeId) -> bool, n: RaftNodeId)
    requires
        s.filter(keep).contains(n),
    ensures
        s.contains(n),
        keep(n),
    decreases s.len(),
{
    reveal(Seq::filter);
    if s.len() > 0 {
        let front = s.drop_last();
        let i = choose|i: int| 0 <= i < s.filter(keep).len() && s.filter(keep)[i] == n;
        if i < front.filter(keep).len() {
            assert(front.filter(keep)[i] == n);
            assert(front.filter(keep).contains(n));
            lemma_filter_member(front, keep, n);
            let j = choose|j: int| 0 <= j < front.len() && front[j] == n;
            assert(s[j] == n);
        } else {
            assert(s[s.len() - 1] == n);
        }
    }
}

/// A plan keeps to the limit on concurrent moves, and holds only moves that the state of
/// the cluster asks for.
pub proof fn plans_are_throttled_and_justified(
    active: Seq<RebalanceMove>,
    nodes: Seq<NodeInfo>,
    max: u32,
    volumes: Seq<VolumeInfo>,
    overloaded: Seq<RaftNodeId>,
    ideals: Seq<Option<Vec<RaftNodeId>>>,
    count: int,
)
    requires
        0 <= count <= volumes.len(),
        count <= ideals.len(),
    ensures
        ({
            let plan = volumes_planned(active, nodes, max, volumes, overloaded, ideals, count);
            &&& within_limit(active, plan, max)
            &&& forall|i: int|
                0 <= i < plan.len() ==> is_justified(
                    #[trigger] plan[i],
                    nodes,
                    volumes,
                    overloaded,
                )
        }),
    decreases count,
{
    if count > 0 {
        plans_are_throttled_and_justified(
            active,
            nodes,
            max,
            volumes,
            overloaded,
            ideals,
            count - 1,
        );
        let before = volumes_planned(active, nodes, max, volumes, overloaded, ideals, count - 1);
        if let Some(ideal) = ideals[count - 1] {
            let sources = leaving(volumes[count - 1], overloaded, ideal@);
            let targets = joining(volumes[count - 1], ideal@);
            lemma_pairs(
                active,
                before,
                nodes,
                max,
                volumes,
                count - 1,
                overloaded,
                ideal@,
                pair_count(sources, targets),
            );
        }
    } else {
        assert(active + Seq::<RebalanceMove>::empty() =~= active);
    }
}

fn holds(ids: &[RaftNodeId], id: RaftNodeId) -> (r: bool)
    ensures
        r == ids@.contains(id),
{
    let mut i: usize = 0;
    while i < ids.len()
        invariant
            i <= ids@.len(),
            forall|j: int| 0 <= j < i ==> ids@[j] != id,
        decreases ids@.len() - i,
    {
        if ids[i] == id {
            assert(ids@[i as int] == id);
            return true;
        }
        i = i + 1;
    }
    false
}

fn leaving_nodes(volume: &VolumeInfo, overloaded: &[RaftNodeId], ideal: &[RaftNodeId]) -> (r: Vec<
    RaftNodeId,
>)
    ensures
        r@ == leaving(*volume, overloaded@, ideal@),
{
    let ghost keep = |n: RaftNodeId| overloaded@.contains(n) && !ideal@.contains(n);
    let placement = &volume.placement;
    let mut r: Vec<RaftNodeId> = Vec::new();
    let mut i: usize = 0;
    proof {
        reveal(Seq::filter);
        assert(placement@.take(0).filter(keep) =~= Seq::empty());
    }
    while i < placement.len()
        invariant
            i <= placement@.len(),
            keep == (|n: RaftNodeId| overloaded@.contains(n) && !ideal@.contains(n)),
            r@ == placement@.take(i as int).filter(keep),
        decreases placement@.len() - i,
    {
        if holds(overloaded, placement[i]) && !holds(ideal, placement[i]) {
            r.push(placement[i]);
        }
        i = i + 1;
        proof {
            reveal(Seq::filter);
            assert(placement@.take(i as int).drop_last() =~= placement@.take(i - 1));
        }
    }
    assert(placement@.take(placement@.len() as int) =~= placement@);
    r
}

fn joining_nodes(volume: &VolumeInfo, ideal: &[RaftNodeId]) -> (r: Vec<RaftNodeId>)
    ensures
        r@ == joining(*volume, ideal@),
{
    let ghost keep = |n: RaftNodeId| !volume.placement@.contains(n);
    let mut r: Vec<RaftNodeId> = Vec::new();
    let mut i: usize = 0;
    proof {
        reveal(Seq::filter);
        assert(ideal@.take(0).filter(keep) =~= Seq::empty());
    }
    while i < ideal.len()
        invariant
            i <= ideal@.len(),
            keep == (|n: RaftNodeId| !volume.placement@.contains(n)),
            r@ == ideal@.take(i as int).filter(keep),
        decreases ideal@.len() - i,
    {
        if !holds(volume.placement.as_slice(), ideal[i]) {
            r.push(ideal[i]);
        }
        i = i + 1;
        proof {
            reveal(Seq::filter);
            assert(ideal@.take(i as int).drop_last() =~= ideal@.take(i - 1));
        }
    }
    assert(ideal@.take(ideal@.len() as int) =~= ideal@);
    r
}

fn can_receive(nodes: &Vec<NodeInfo>, id: RaftNodeId) -> (r: bool)
    ensures
        r == may_receive(nodes@, id),
{
    let mut i: usize = nodes.len();
    assert(nodes@.take(nodes@.len() as int) =~= nodes@);
    while i > 0
        invariant
            i <= nodes@.len(),
            node_with_id(nodes@, id) == node_with_id(nodes@.take(i as int), id),
        decreases i,
    {
        assert(nodes@.take(i as int).drop_last() =~= nodes@.take(i - 1));
        if nodes[i - 1].id == id {
            return nodes[i - 1].eligible();
        }
        i = i - 1;
    }
    true
}

/// Whether a node takes part in at least `max` moves of two lists that are not over.
fn is_busy(
    active: &Vec<RebalanceMove>,
    plan: &Vec<RebalanceMove>,
    node: RaftNodeId,
    max: u32,
) -> (r: bool)
    ensures
        r == (load(active@ + plan@, node) >= max),
{
    let ghost all = active@ + plan@;
    let mut seen: u64 = 0;
    let mut i: usize = 0;
    assert(all.take(0) =~= Seq::empty());
    while i < active.len()
        invariant
            i <= active@.len(),
            all == active@ + plan@,
            seen == load(all.take(i as int), node),
            seen <= max,
        decreases active@.len() - i,
    {
        let ghost here = all.take(i as int);
        assert(all.take(i + 1).drop_last() =~= here);
        let m = &active[i];
        assert(all[i as int] == *m);
        if MoveFilter::Unfinished.accepts(&m.state) {
            if m.source_node == node {
                seen = seen + 1;
            }
            if m.target_node == node {
                seen = seen + 1;
            }
        }
        i = i + 1;
        if seen >= max as u64 {
            proof {
                lemma_load_prefix(all, i as int, node);
            }
            return true;
        }
    }
    let mut j: usize = 0;
    while j < plan.len()
        invariant
            j <= plan@.len(),
            all == active@ + plan@,
            seen == load(all.take(active@.len() + j as int), node),
            seen <= max,
        decreases plan@.len() - j,
    {
        let ghost here = all.take(active@.len() + j as int);
        assert(all.take(active@.len() + j as int + 1).drop_last() =~= here);
        let m = &plan[j];
        assert(all[active@.len() + j as int] == *m);
        if MoveFilter::Unfinished.accepts(&m.state) {
            if m.source_node == node {
                seen = seen + 1;
            }
            if m.target_node == node {
                seen = seen + 1;
            }
        }
        j = j + 1;
        if seen >= max as u64 {
            proof {
                lemma_load_prefix(all, active@.len() + j as int, node);
            }
            return true;
        }
    }
    assert(all.take(all.len() as int) =~= all);
    seen >= max as u64
}

proof fn lemma_load_prefix(moves: Seq<RebalanceMove>, count: int, node: RaftNodeId)
    requires
        0 <= count <= moves.len(),
    ensures
        load(moves.take(count), node) <= load(moves, node),
    decreases moves.len(),
{
    if count == moves.len() {
        assert(moves.take(count) =~= moves);
    } else {
        assert(moves.drop_last().take(count) =~= moves.take(count));
        lemma_load_prefix(moves.drop_last(), count, node);
    }
}

/// The moves that are over, or those that are not, in order.
pub open spec fn moves_over(moves: Seq<RebalanceMove>, over: bool) -> Seq<RebalanceMove>
    decreases moves.len(),
{
    if moves.len() == 0 {
        Seq::empty()
    } else {
        let front = moves_over(moves.drop_last(), over);
        if moves.last().state.is_over() == over {
            front.push(moves.last())
        } else {
            front
        }
    }
}

/// Engine that computes rebalance moves and keeps track of them.
#[derive(Clone, Debug)]
pub struct RebalanceEngine {
    pub config: RebalanceConfig,
    pub active_moves: Vec<RebalanceMove>,
}

impl RebalanceEngine {
    /// An engine without moves.
    pub fn new(config: RebalanceConfig) -> (r: Self)
        ensures
            r.config == config,
            r.active_moves@ == Seq::<RebalanceMove>::empty(),
    {
        RebalanceEngine { config, active_moves: Vec::new() }
    }

    /// Compute rebalance moves for the cluster. For each volume on an
    /// over-utilised node, generate moves that shift replicas towards its ideal
    /// placement.
    ///
    /// The caller says which nodes are overloaded, and the ideal placement of each
    /// volume, where there is one.
    /// Respects `max_concurrent_moves_per_node` from the config.
    pub fn compute_moves(
        &self,
        cluster: &ClusterState,
        overloaded: &[RaftNodeId],
        ideals: &Vec<Option<Vec<RaftNodeId>>>,
    ) -> (r: Vec<RebalanceMove>)
        requires
            ideals@.len() == cluster.volumes@.len(),
        ensures
            r@ == volumes_planned(
                self.active_moves@,
                cluster.nodes@,
                self.config.max_concurrent_moves_per_node,
                cluster.volumes@,
                overloaded@,
                ideals@,
                cluster.volumes@.len() as int,
            ),
    {
        let max = self.config.max_concurrent_moves_per_node;
        let ghost active = self.active_moves@;
        let mut plan: Vec<RebalanceMove> = Vec::new();
        let mut v: usize = 0;
        while v < cluster.volumes.len()
            invariant
                v <= cluster.volumes@.len(),
                ideals@.len() == cluster.volumes@.len(),
                active == self.active_moves@,
                plan@ == volumes_planned(
                    active,
                    cluster.nodes@,
                    max,
                    cluster.volumes@,
                    overloaded@,
                    ideals@,
                    v as int,
                ),
            decreases cluster.volumes@.len() - v,
        {
            let volume = &cluster.volumes[v];
            match &ideals[v] {
                None => {},
                Some(ideal) => {
                    let sources = leaving_nodes(volume, overloaded, ideal.as_slice());
                    let targets = joining_nodes(volume, ideal.as_slice());
                    let pairs: usize = if sources.len() <= targets.len() {
                        sources.len()
                    } else {
                        targets.len()
                    };
                    let ghost start = plan@;
                    let mut i: usize = 0;
                    while i < pairs
                        invariant
                            i <= pairs,
                            pairs <= sources@.len(),
                            pairs <= targets@.len(),
                            active == self.active_moves@,
                            plan@ == pairs_planned(
                                active,
                                start,
                                cluster.nodes@,
                                max,
                                *volume,
                                sources@,
                                targets@,
                                i as int,
                            ),
                        decreases pairs - i,
                    {
                        let source = sources[i];
                        let target = targets[i];
                        if !is_busy(&self.active_moves, &plan, source, max) && !is_busy(
                            &self.active_moves,
                            &plan,
                            target,
                            max,
                        ) && can_receive(&cluster.nodes, target) {
                            plan.push(
                                RebalanceMove {
                                    volume_name: volume.name.clone(),
                                    source_node: source,
                                    target_node: target,
                                    state: MoveState::Pending,
                                    bytes_transferred: 0,
                                    total_bytes: volume.size_bytes,
                                },
                            );
                        }
                        i = i + 1;
                    }
                },
            }
            v = v + 1;
        }
        plan
    }

    /// Enqueue a set of moves into the active list.
    pub fn enqueue_moves(&mut self, moves: Vec<RebalanceMove>)
        ensures
            final(self).active_moves@ == old(self).active_moves@ + moves@,
            final(self).config == old(self).config,
    {
        let mut moves = moves;
        self.active_moves.append(&mut moves);
    }

    /// The active moves.
    pub fn active_moves(&self) -> (r: &Vec<RebalanceMove>)
        ensures
            r@ == self.active_moves@,
    {
        &self.active_moves
    }

    /// Return the count of active (non-completed, non-failed) moves.
    pub fn move_count(&self) -> (r: usize)
        ensures
            r == moves_over(self.active_moves@, false).len(),
    {
        let mut n: usize = 0;
        let mut i: usize = 0;
        while i < self.active_moves.len()
            invariant
                i <= self.active_moves@.len(),
                n <= i,
                n == moves_over(self.active_moves@.take(i as int), false).len(),
            decreases self.active_moves@.len() - i,
        {
            if MoveFilter::Unfinished.accepts(&self.active_moves[i].state) {
                n = n + 1;
            }
            i = i + 1;
            assert(self.active_moves@.take(i as int).drop_last() =~= self.active_moves@.take(i - 1));
        }
        assert(self.active_moves@.take(self.active_moves@.len() as int) =~= self.active_moves@);
        n
    }

    fn find(&self, volume_name: &str, filter: MoveFilter) -> (r: usize)
        ensures
            r == first_move(self.active_moves@, volume_name@, filter, 0),
            r <= self.active_moves@.len(),
    {
        let mut i: usize = 0;
        while i < self.active_moves.len()
            invariant
                i <= self.active_moves@.len(),
                first_move(self.active_moves@, volume_name@, filter, 0) == first_move(
                    self.active_moves@,
                    volume_name@,
                    filter,
                    i as int,
                ),
            decreases self.active_moves@.len() - i,
        {
            if same_text(self.active_moves[i].volume_name.as_str(), volume_name) && filter.accepts(
                &self.active_moves[i].state,
            ) {
                return i;
            }
            i = i + 1;
        }
        i
    }

    /// Transition a move to Syncing state. Returns false if the move was not
    /// found or not in Pending state.
    pub fn start_syncing(&mut self, volume_name: &str) -> (r: bool)
        ensures
            r == has_move(old(self).active_moves@, volume_name@, MoveFilter::Pending),
            ({
                let i = first_move(
                    old(self).active_moves@,
                    volume_name@,
                    MoveFilter::Pending,
                    0,
                );
                final(self).active_moves@ == (if r {
                    old(self).active_moves@.update(
                        i,
                        RebalanceMove { state: MoveState::Syncing, ..old(self).active_moves@[i] },
                    )
                } else {
                    old(self).active_moves@
                })
            }),
            final(self).config == old(self).config,
    {
        let i = self.find(volume_name, MoveFilter::Pending);
        if i < self.active_moves.len() {
            self.active_moves[i].state = MoveState::Syncing;
            assert(self.active_moves@ =~= old(self).active_moves@.update(
                i as int,
                RebalanceMove { state: MoveState::Syncing, ..old(self).active_moves@[i as int] },
            ));
            true
        } else {
            false
        }
    }

    /// Transition a move to Promoting state. Returns false if the move was not
    /// found or not in Syncing state.
    pub fn start_promoting(&mut self, volume_name: &str) -> (r: bool)
        ensures
            r == has_move(old(self).active_moves@, volume_name@, MoveFilter::Syncing),
            ({
                let i = first_move(
                    old(self).active_moves@,
                    volume_name@,
                    MoveFilter::Syncing,
                    0,
                );
                final(self).active_moves@ == (if r {
                    old(self).active_moves@.update(
                        i,
                        RebalanceMove { state: MoveState::Promoting, ..old(self).active_moves@[i] },
                    )
                } else {
                    old(self).active_moves@
                })
            }),
            final(self).config == old(self).config,
    {
        let i = self.find(volume_name, MoveFilter::Syncing);
        if i < self.active_moves.len() {
            self.active_moves[i].state = MoveState::Promoting;
            assert(self.active_moves@ =~= old(self).active_moves@.update(
                i as int,
                RebalanceMove { state: MoveState::Promoting, ..old(self).active_moves@[i as int] },
            ));
            true
        } else {
            false
        }
    }

    /// Mark a move as completed, with all bytes transferred. Returns true if found and
    /// transitioned.
    pub fn complete_move(&mut self, volume_name: &str) -> (r: bool)
        ensures
            r == has_move(old(self).active_moves@, volume_name@, MoveFilter::SyncingOrPromoting),
            ({
                let i = first_move(
                    old(self).active_moves@,
                    volume_name@,
                    MoveFilter::SyncingOrPromoting,
                    0,
                );
                final(self).active_moves@ == (if r {
                    old(self).active_moves@.update(
                        i,
                        RebalanceMove {
                            state: MoveState::Completed,
                            bytes_transferred: old(self).active_moves@[i].total_bytes,
                            ..old(self).active_moves@[i]
                        },
                    )
                } else {
                    old(self).active_moves@
                })
            }),
            final(self).config == old(self).config,
    {
        let i = self.find(volume_name, MoveFilter::SyncingOrPromoting);
        if i < self.active_moves.len() {
            let total = self.active_moves[i].total_bytes;
            self.active_moves[i].bytes_transferred = total;
            self.active_moves[i].state = MoveState::Completed;
            assert(self.active_moves@ =~= old(self).active_moves@.update(
                i as int,
                RebalanceMove {
                    state: MoveState::Completed,
                    bytes_transferred: total,
                    ..old(self).active_moves@[i as int]
                },
            ));
            true
        } else {
            false
        }
    }

    /// Mark a move that is not over as failed with a reason.
    pub fn fail_move(&mut self, volume_name: &str, reason: &str)
        ensures
            ({
                let before = old(self).active_moves@;
                let after = final(self).active_moves@;
                let i = first_move(before, volume_name@, MoveFilter::Unfinished, 0);
                if has_move(before, volume_name@, MoveFilter::Unfinished) {
                    &&& after[i].state is Failed
                    &&& after[i].state->Failed_0@ == reason@
                    &&& after == before.update(
                        i,
                        RebalanceMove { state: after[i].state, ..before[i] },
                    )
                } else {
                    after == before
                }
            }),
            final(self).config == old(self).config,
    {
        let i = self.find(volume_name, MoveFilter::Unfinished);
        if i < self.active_moves.len() {
            self.active_moves[i].state = MoveState::Failed(reason.to_owned());
            assert(self.active_moves@ =~= old(self).active_moves@.update(
                i as int,
                RebalanceMove {
                    state: self.active_moves@[i as int].state,
                    ..old(self).active_moves@[i as int]
                },
            ));
        }
    }

    /// Update the bytes_transferred for a syncing move. Returns false if
    /// the move is not found or not in Syncing state.
    pub fn update_progress(&mut self, volume_name: &str, bytes_transferred: u64) -> (r: bool)
        ensures
            r == has_move(old(self).active_moves@, volume_name@, MoveFilter::Syncing),
            ({
                let i = first_move(
                    old(self).active_moves@,
                    volume_name@,
                    MoveFilter::Syncing,
                    0,
                );
                final(self).active_moves@ == (if r {
                    old(self).active_moves@.update(
                        i,
                        RebalanceMove { bytes_transferred, ..old(self).active_moves@[i] },
                    )
                } else {
                    old(self).active_moves@
                })
            }),
            final(self).config == old(self).config,
    {
        let i = self.find(volume_name, MoveFilter::Syncing);
        if i < self.active_moves.len() {
            self.active_moves[i].bytes_transferred = bytes_transferred;
            assert(self.active_moves@ =~= old(self).active_moves@.update(
                i as int,
                RebalanceMove { bytes_transferred, ..old(self).active_moves@[i as int] },
            ));
            true
        } else {
            false
        }
    }

    /// Remove completed and failed moves from the active list, returning them.
    pub fn drain_finished(&mut self) -> (r: Vec<RebalanceMove>)
        ensures
            r@ == moves_over(old(self).active_moves@, true),
            final(self).active_moves@ == moves_over(old(self).active_moves@, false),
            final(self).config == old(self).config,
    {
        let mut moves: Vec<RebalanceMove> = Vec::new();
        core::mem::swap(&mut moves, &mut self.active_moves);
        let ghost all = moves@;
        let mut finished: Vec<RebalanceMove> = Vec::new();
        let mut remaining: Vec<RebalanceMove> = Vec::new();
        for m in it: moves
            invariant
                it.seq() == all,
                finished@ == moves_over(all.take(it.index() as int), true),
                remaining@ == moves_over(all.take(it.index() as int), false),
        {
            assert(all.take(it.index() + 1).drop_last() =~= all.take(it.index() as int));
            assert(all[it.index() as int] == m);
            if MoveFilter::Unfinished.accepts(&m.state) {
                remaining.push(m);
            } else {
                finished.push(m);
            }
        }
        assert(all.take(all.len() as int) =~= all);
        self.active_moves = remaining;
        finished
    }

    /// Access the config.
    pub fn config(&self) -> (r: &RebalanceConfig)
        ensures
            *r == self.config,
    {
        &self.config
    }
}

/// The load of a cluster is that of its healthy nodes with an online pool and some capacity:
/// their positions in order, and the sums of what they use and of what they have.
pub proof fn loads_are_of_healthy_nodes(nodes: Seq<NodeInfo>)
    requires
        nodes.len() <= usize::MAX,
    ensures
        ({
            let counted = nodes.filter(
                |n: NodeInfo| n.state is Healthy && n.zfs_health is Online && n.capacity_bytes > 0,
            );
            &&& used_in(nodes) == counted.fold_left(0int, |s: int, n: NodeInfo| s + n.used_bytes)
            &&& capacity_in(nodes) == counted.fold_left(
                0int,
                |s: int, n: NodeInfo| s + n.capacity_bytes,
            )
            &&& weighed_in(nodes).len() == counted.len()
            &&& forall|k: int|
                0 <= k < counted.len() ==> (#[trigger] weighed_in(nodes)[k]) < nodes.len()
                    && nodes[weighed_in(nodes)[k] as int] == counted[k]
            &&& forall|k: int, l: int|
                0 <= k < l < weighed_in(nodes).len() ==> (#[trigger] weighed_in(nodes)[k]) < (
                #[trigger] weighed_in(nodes)[l])
        }),
    decreases nodes.len(),
{
    reveal(Seq::filter);
    reveal(Seq::fold_left);
    if nodes.len() > 0 {
        let front = nodes.drop_last();
        loads_are_of_healthy_nodes(front);
        let counts = |n: NodeInfo|
            n.state is Healthy && n.zfs_health is Online && n.capacity_bytes > 0;
        let before = front.filter(counts);
        let counted = nodes.filter(counts);
        let at_before = weighed_in(front);
        let at = weighed_in(nodes);
        if counts(nodes.last()) {
            assert(counted.drop_last() =~= before);
        }
        assert forall|k: int| 0 <= k < counted.len() implies (#[trigger] at[k]) < nodes.len()
            && nodes[at[k] as int] == counted[k] by {
            if k < at_before.len() {
                assert(at[k] == at_before[k]);
                assert(front[at_before[k] as int] == before[k]);
            }
        }
        assert forall|k: int, l: int| 0 <= k < l < at.len() implies (#[trigger] at[k]) < (
        #[trigger] at[l]) by {
            assert(at[k] == at_before[k]);
            if l < at_before.len() {
                assert(at[l] == at_before[l]);
            }
        }
    }
}

/// A step in a volume's move takes the first of its moves that is in a right state.
pub proof fn steps_take_the_first_move(moves: Seq<RebalanceMove>, name: Seq<char>, filter: MoveFilter)
    ensures
        ({
            let i = first_move(moves, name, filter, 0);
            &&& 0 <= i <= moves.len()
            &&& has_move(moves, name, filter) <==> exists|k: int|
                0 <= k < moves.len() && (#[trigger] moves[k]).volume_name@ == name
                    && is_meant(filter, moves[k].state)
            &&& i < moves.len() ==> moves[i].volume_name@ == name && is_meant(
                filter,
                moves[i].state,
            )
            &&& forall|k: int|
                0 <= k < i ==> (#[trigger] moves[k]).volume_name@ != name || !is_meant(
                    filter,
                    moves[k].state,
                )
        }),
{
    lemma_first_move_is_first(moves, name, filter, 0);
}

/// Whether a state is among those that a step starts from: a move is started when pending,
/// promoted when syncing, completed when either syncing or promoting, and failed when it is
/// neither completed nor failed.
pub open spec fn is_meant(filter: MoveFilter, state: MoveState) -> bool {
    match filter {
        MoveFilter::Pending => state is Pending,
        MoveFilter::Syncing => state is Syncing,
        MoveFilter::SyncingOrPromoting => state is Syncing || state is Promoting,
        MoveFilter::Unfinished => !(state is Completed) && !(state is Failed),
    }
}

proof fn lemma_first_move_is_first(
    moves: Seq<RebalanceMove>,
    name: Seq<char>,
    filter: MoveFilter,
    from: int,
)
    requires
        0 <= from <= moves.len(),
    ensures
        from <= first_move(moves, name, filter, from) <= moves.len(),
        forall|k: int|
            from <= k < first_move(moves, name, filter, from) ==> (#[trigger] moves[k]).volume_name@
                != name || !is_meant(filter, moves[k].state),
        first_move(moves, name, filter, from) < moves.len() ==> moves[first_move(
            moves,
            name,
            filter,
            from,
        )].volume_name@ == name && is_meant(
            filter,
            moves[first_move(moves, name, filter, from)].state,
        ),
    decreases moves.len() - from,
{
    if from < moves.len() && !(moves[from].volume_name@ == name && filter.takes(
        moves[from].state,
    )) {
        lemma_first_move_is_first(moves, name, filter, from + 1);
    }
}

/// A node is in as many moves as it is source or target of, of those that are neither
/// completed nor failed.
pub proof fn loads_count_unfinished_moves(moves: Seq<RebalanceMove>, node: RaftNodeId)
    ensures
        load(moves, node) == moves.filter(
            |m: RebalanceMove|
                !(m.state is Completed) && !(m.state is Failed) && m.source_node == node,
        ).len() + moves.filter(
            |m: RebalanceMove|
                !(m.state is Completed) && !(m.state is Failed) && m.target_node == node,
        ).len(),
    decreases moves.len(),
{
    reveal(Seq::filter);
    if moves.len() > 0 {
        loads_count_unfinished_moves(moves.drop_last(), node);
    }
}

/// The moves that are taken out as finished are exactly the completed and failed ones, and
/// the others stay, both in order.
pub proof fn finished_moves_are_completed_or_failed(moves: Seq<RebalanceMove>)
    ensures
        moves_over(moves, true) == moves.filter(
            |m: RebalanceMove| m.state is Completed || m.state is Failed,
        ),
        moves_over(moves, false) == moves.filter(
            |m: RebalanceMove| !(m.state is Completed) && !(m.state is Failed),
        ),
    decreases moves.len(),
{
    reveal(Seq::filter);
    if moves.len() > 0 {
        finished_moves_are_completed_or_failed(moves.drop_last());
    }
    assert(moves_over(moves, true) =~= moves.filter(
        |m: RebalanceMove| m.state is Completed || m.state is Failed,
    ));
    assert(moves_over(moves, false) =~= moves.filter(
        |m: RebalanceMove| !(m.state is Completed) && !(m.state is Failed),
    ));
}

/// A volume leaves the overloaded nodes that it should not be on, and joins the nodes that it
/// should be on and is not.
pub proof fn volumes_go_where_they_should_be(
    volume: VolumeInfo,
    overloaded: Seq<RaftNodeId>,
    ideal: Seq<RaftNodeId>,
    node: RaftNodeId,
)
    ensures
        leaving(volume, overloaded, ideal).contains(node) <==> volume.placement@.contains(node)
            && overloaded.contains(node) && !ideal.contains(node),
        joining(volume, ideal).contains(node) <==> ideal.contains(node)
            && !volume.placement@.contains(node),
{
    lemma_filter_keeps(
        volume.placement@,
        |n: RaftNodeId| overloaded.contains(n) && !ideal.contains(n),
        node,
    );
    lemma_filter_keeps(ideal, |n: RaftNodeId| !volume.placement@.contains(n), node);
}

proof fn lemma_filter_keeps(s: Seq<RaftNodeId>, keep: spec_fn(RaftNodeId) -> bool, x: RaftNodeId)
    ensures
        s.filter(keep).contains(x) <==> s.contains(x) && keep(x),
    decreases s.len(),
{
    reveal(Seq::filter);
    if s.len() > 0 {
        let front = s.drop_last();
        lemma_filter_keeps(front, keep, x);
        crate::collections::lemma_push_contains(front, s.last(), x);
        crate::collections::lemma_push_contains(front.filter(keep), s.last(), x);
        assert(front.push(s.last()) =~= s);
    }
}

/// A volume is moved from a node that it leaves to one that it joins exactly where neither
/// has as many moves as allowed and the target is not known to be unhealthy or offline; the
/// move is of the whole volume and still pending, and it counts for the pairs that follow.
pub proof fn pairs_are_moved_unless_throttled(
    active: Seq<RebalanceMove>,
    plan: Seq<RebalanceMove>,
    nodes: Seq<NodeInfo>,
    max: u32,
    volume: VolumeInfo,
    sources: Seq<RaftNodeId>,
    targets: Seq<RaftNodeId>,
    count: int,
)
    requires
        0 <= count < sources.len(),
        count < targets.len(),
    ensures
        pairs_planned(active, plan, nodes, max, volume, sources, targets, 0) == plan,
        ({
            let before = pairs_planned(
                active,
                plan,
                nodes,
                max,
                volume,
                sources,
                targets,
                count,
            );
            let after = pairs_planned(
                active,
                plan,
                nodes,
                max,
                volume,
                sources,
                targets,
                count + 1,
            );
            let fit = forall|i: int| #[trigger]
                is_last_with_id(nodes, i, targets[count]) ==> nodes[i].state is Healthy
                    && nodes[i].zfs_health is Online;
            if load(active + before, sources[count]) < max && load(
                active + before,
                targets[count],
            ) < max && fit {
                let m = after[before.len() as int];
                &&& after.len() == before.len() + 1
                &&& after.take(before.len() as int) == before
                &&& m.volume_name == volume.name
                &&& m.source_node == sources[count]
                &&& m.target_node == targets[count]
                &&& m.state is Pending
                &&& m.bytes_transferred == 0
                &&& m.total_bytes == volume.size_bytes
            } else {
                after == before
            }
        }),
{
    let before = pairs_planned(active, plan, nodes, max, volume, sources, targets, count);
    let after = pairs_planned(active, plan, nodes, max, volume, sources, targets, count + 1);
    lemma_may_receive(nodes, targets[count]);
    if after.len() > before.len() {
        assert(after.take(before.len() as int) =~= before);
    }
}

/// Whether a node is the last one that is listed under a number.
pub open spec fn is_last_with_id(nodes: Seq<NodeInfo>, i: int, id: RaftNodeId) -> bool {
    &&& 0 <= i < nodes.len()
    &&& nodes[i].id == id
    &&& forall|j: int| i < j < nodes.len() ==> (#[trigger] nodes[j]).id != id
}

proof fn lemma_may_receive(nodes: Seq<NodeInfo>, id: RaftNodeId)
    ensures
        may_receive(nodes, id) <==> forall|i: int| #[trigger]
            is_last_with_id(nodes, i, id) ==> nodes[i].state is Healthy
                && nodes[i].zfs_health is Online,
{
    let at = lemma_node_with_id(nodes, id);
    if node_with_id(nodes, id) is Some {
        assert(is_last_with_id(nodes, at, id));
        assert forall|i: int| #[trigger] is_last_with_id(nodes, i, id) implies i == at by {
            if i < at {
                assert(nodes[at].id != id);
            } else if at < i {
                assert(nodes[i].id != id);
            }
        }
    }
}

proof fn lemma_node_with_id(nodes: Seq<NodeInfo>, id: RaftNodeId) -> (at: int)
    ensures
        match node_with_id(nodes, id) {
            Some(n) => is_last_with_id(nodes, at, id) && n == nodes[at],
            None => forall|i: int| 0 <= i < nodes.len() ==> (#[trigger] nodes[i]).id != id,
        },
    decreases nodes.len(),
{
    if nodes.len() == 0 {
        0
    } else {
        let front = nodes.drop_last();
        let last = nodes.len() - 1;
        assert(nodes.last() == nodes[last]);
        if nodes[last].id == id {
            last
        } else {
            let at = lemma_node_with_id(front, id);
            assert forall|j: int| 0 <= j < last implies front[j] == #[trigger] nodes[j] by {}
            at
        }
    }
}

/// A plan goes through the volumes in order: one without an ideal placement is passed over,
/// and of any other as many nodes are exchanged as it leaves or joins, whichever is fewer.
pub proof fn plans_go_through_the_volumes(
    active: Seq<RebalanceMove>,
    nodes: Seq<NodeInfo>,
    max: u32,
    volumes: Seq<VolumeInfo>,
    overloaded: Seq<RaftNodeId>,
    ideals: Seq<Option<Vec<RaftNodeId>>>,
    count: int,
)
    requires
        0 <= count < volumes.len(),
        count < ideals.len(),
    ensures
        volumes_planned(active, nodes, max, volumes, overloaded, ideals, 0).len() == 0,
        ({
            let before = volumes_planned(active, nodes, max, volumes, overloaded, ideals, count);
            let after = volumes_planned(
                active,
                nodes,
                max,
                volumes,
                overloaded,
                ideals,
                count + 1,
            );
            &&& ideals[count] is None ==> after == before
            &&& ideals[count] matches Some(ideal) ==> {
                let sources = leaving(volumes[count], overloaded, ideal@);
                let targets = joining(volumes[count], ideal@);
                let pairs = if sources.len() < targets.len() {
                    sources.len()
                } else {
                    targets.len()
                };
                after == pairs_planned(
                    active,
                    before,
                    nodes,
                    max,
                    volumes[count],
                    sources,
                    targets,
                    pairs as int,
                )
            }
        }),
{
}

} // verus!
