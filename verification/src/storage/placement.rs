//! Volume placement engine: maps extents to physical disks across nodes.
//!
//! The placement engine respects protection policies, spreading replicas
//! and erasure coding fragments across distinct nodes, preferring nodes
//! with more free space.

use crate::ids::{is_version_4, DiskId, ExtentId, NodeId};
use crate::storage::grouping::{
    group_position, group_slots, group_views, grouped, grouping_keeps_the_places, groups_wf,
    in_groups, lemma_group_position, lemma_slot_position, slot_position, Group, GroupModel, Slot,
};
use crate::storage::ranking::{rank_groups, ranked, ranking_keeps_the_groups, total_free, Measure};
use crate::text::{decimal, decimal_text, join2, join4};
use crate::types::{DiskState, ProtectionPolicy};
use vstd::arithmetic::div_mod::{lemma_mod_add_multiples_vanish, lemma_small_mod};
use vstd::prelude::*;

verus! {

/// A disk of the cluster, as placement sees it.
#[derive(Clone, Copy, Debug, PartialEq, Eq, Structural)]
pub struct PlacementDisk {
    pub disk_id: DiskId,
    pub node_id: NodeId,
    pub capacity_bytes: u64,
    pub used_bytes: u64,
    pub state: DiskState,
}

impl PlacementDisk {
    /// Free bytes on this disk; none where more is used than there is.
    pub open spec fn free(self) -> u64 {
        if self.used_bytes <= self.capacity_bytes {
            (self.capacity_bytes - self.used_bytes) as u64
        } else {
            0
        }
    }

    /// Free bytes on this disk.
    pub fn free_bytes(&self) -> (r: u64)
        ensures
            r == self.free(),
            self.used_bytes <= self.capacity_bytes ==> r == self.capacity_bytes - self.used_bytes,
            self.used_bytes > self.capacity_bytes ==> r == 0,
    {
        if self.used_bytes <= self.capacity_bytes {
            self.capacity_bytes - self.used_bytes
        } else {
            0
        }
    }
}

/// Minimal node info for placement decisions.
#[derive(Clone, Copy, Debug, PartialEq, Eq, Structural)]
pub struct PlacementNode {
    pub node_id: NodeId,
}

/// Result of placing a single extent.
#[derive(Clone, Debug)]
pub struct ExtentPlacement {
    pub extent_id: ExtentId,
    /// Primary disk for this extent.
    pub primary_disk: DiskId,
    /// Replica disks (for Replicated policy; excludes primary).
    pub replica_disks: Vec<DiskId>,
    /// Fragment disks (for ErasureCoded policy; data+parity).
    pub fragment_disks: Vec<DiskId>,
}

/// Errors that can occur during placement.
#[derive(Clone, Debug, PartialEq, Eq)]
pub enum PlacementError {
    InsufficientNodes { required: usize, available: usize },
    InsufficientDisks { required: usize, available: usize },
    NoHealthyDisks,
    InvalidPolicy(String),
}

impl PlacementError {
    /// What the error says.
    pub open spec fn text(self) -> Seq<char> {
        match self {
            PlacementError::InsufficientNodes { required, available } => "insufficient nodes: need "@
                + decimal(required as nat) + ", have "@ + decimal(available as nat),
            PlacementError::InsufficientDisks { required, available } => "insufficient disks: need "@
                + decimal(required as nat) + ", have "@ + decimal(available as nat),
            PlacementError::NoHealthyDisks => "no healthy disks available"@,
            PlacementError::InvalidPolicy(msg) => "invalid protection policy: "@ + msg@,
        }
    }

    /// What the error says.
    pub fn to_text(&self) -> (s: String)
        ensures
            s@ == self.text(),
    {
        match self {
            PlacementError::InsufficientNodes { required, available } => join4(
                "insufficient nodes: need ",
                decimal_text(*required as u64).as_str(),
                ", have ",
                decimal_text(*available as u64).as_str(),
            ),
            PlacementError::InsufficientDisks { required, available } => join4(
                "insufficient disks: need ",
                decimal_text(*required as u64).as_str(),
                ", have ",
                decimal_text(*available as u64).as_str(),
            ),
            PlacementError::NoHealthyDisks => "no healthy disks available".to_owned(),
            PlacementError::InvalidPolicy(msg) => join2(
                "invalid protection policy: ",
                msg.as_str(),
            ),
        }
    }
}

/// Default extent size: 64 MiB.
pub const DEFAULT_EXTENT_SIZE: u64 = 67108864;

/// Volume metadata subset needed for placement.
#[derive(Clone, Copy, Debug, PartialEq, Eq, Structural)]
pub struct PlacementVolumeInfo {
    pub size_bytes: u64,
    pub protection: ProtectionPolicy,
    pub extent_size_bytes: u64,
}

impl Default for PlacementVolumeInfo {
    fn default() -> (r: Self)
        ensures
            r.size_bytes == 0,
            r.protection == (ProtectionPolicy::Replicated { replicas: 1 }),
            r.extent_size_bytes == DEFAULT_EXTENT_SIZE,
    {
        PlacementVolumeInfo {
            size_bytes: 0,
            protection: ProtectionPolicy::Replicated { replicas: 1 },
            extent_size_bytes: DEFAULT_EXTENT_SIZE,
        }
    }
}

impl PlacementVolumeInfo {
    /// The number of extents of the volume: as many as its bytes need.
    pub open spec fn extent_count(self) -> int {
        if self.size_bytes == 0 {
            0
        } else {
            (self.size_bytes + self.extent_size_bytes - 1) / self.extent_size_bytes as int
        }
    }

    /// On how many nodes each extent stands.
    pub open spec fn width(self) -> int {
        match self.protection {
            ProtectionPolicy::Replicated { replicas } => replicas as int,
            ProtectionPolicy::ErasureCoded { data_chunks, parity_chunks } => data_chunks
                + parity_chunks,
        }
    }
}

/// Whether a node is among the given ones.
pub open spec fn is_known(nodes: Seq<PlacementNode>, node_id: NodeId) -> bool {
    exists|i: int| 0 <= i < nodes.len() && (#[trigger] nodes[i]).node_id == node_id
}

/// Whether one of the disks takes new extents.
pub open spec fn any_takes_extents(disks: Seq<PlacementDisk>) -> bool {
    exists|i: int| 0 <= i < disks.len() && (#[trigger] disks[i]).state.takes_extents()
}

/// What placement chooses from: the disks that take new extents, on known nodes, in order.
pub open spec fn usable_slots(disks: Seq<PlacementDisk>, nodes: Seq<PlacementNode>) -> Seq<Slot>
    decreases disks.len(),
{
    if disks.len() == 0 {
        Seq::empty()
    } else {
        let front = usable_slots(disks.drop_last(), nodes);
        let d = disks.last();
        if d.state.takes_extents() && is_known(nodes, d.node_id) {
            front.push(Slot { key: d.node_id.value, free: d.free(), id: d.disk_id.value })
        } else {
            front
        }
    }
}

/// The nodes that placement uses, the freest first, each with its disks, the freest first.
pub open spec fn node_ranking(disks: Seq<PlacementDisk>, nodes: Seq<PlacementNode>) -> Seq<
    GroupModel,
> {
    ranked(grouped(usable_slots(disks, nodes)), Measure::Total)
}

/// The rank of the node that holds the `j`-th copy of an extent: extents start at
/// successive nodes, and copies go to the nodes that follow, round and round.
pub open spec fn chosen_node(node_count: int, extent: int, j: int) -> int {
    (extent % node_count + j) % node_count
}

/// The place of the `j`-th copy of an extent: on the chosen node, the disks take turns.
pub open spec fn chosen_slot(ranking: Seq<GroupModel>, extent: int, j: int) -> Slot {
    let n = ranking.len() as int;
    let g = ranking[chosen_node(n, extent, j)];
    g.slots[(extent / n) % (g.slots.len() as int)]
}

/// The disks of an extent.
pub open spec fn chosen_disks(ranking: Seq<GroupModel>, extent: int, count: int) -> Seq<DiskId> {
    Seq::new(count as nat, |j: int| DiskId { value: chosen_slot(ranking, extent, j).id })
}

/// Whether a placement is the one of an extent of the volume.
pub open spec fn places_extent(
    p: ExtentPlacement,
    volume: PlacementVolumeInfo,
    ranking: Seq<GroupModel>,
    extent: int,
) -> bool {
    let disks = chosen_disks(ranking, extent, volume.width());
    &&& is_version_4(p.extent_id.value)
    &&& p.primary_disk == disks[0]
    &&& p.replica_disks@ == (if volume.protection is Replicated {
        disks.skip(1)
    } else {
        Seq::empty()
    })
    &&& p.fragment_disks@ == (if volume.protection is ErasureCoded {
        disks
    } else {
        Seq::empty()
    })
}

proof fn lemma_wrap(s: int, j: int, n: int)
    requires
        0 <= s < n,
        0 <= j < n,
    ensures
        (s + j) % n == (if s + j < n {
            s + j
        } else {
            s + j - n
        }),
{
    if s + j < n {
        lemma_small_mod((s + j) as nat, n as nat);
    } else {
        lemma_small_mod((s + j - n) as nat, n as nat);
        lemma_mod_add_multiples_vanish(s + j - n, n);
    }
}

/// No two copies of an extent stand on one node.
pub proof fn copies_stand_on_different_nodes(
    ranking: Seq<GroupModel>,
    extent: int,
    count: int,
    a: int,
    b: int,
)
    requires
        groups_wf(ranking),
        0 <= extent,
        0 <= a < b < count <= ranking.len(),
    ensures
        chosen_node(ranking.len() as int, extent, a) != chosen_node(ranking.len() as int, extent, b),
        chosen_slot(ranking, extent, a).key != chosen_slot(ranking, extent, b).key,
{
    let n = ranking.len() as int;
    let s = extent % n;
    let x = chosen_node(n, extent, a);
    let y = chosen_node(n, extent, b);
    assert(0 <= s < n);
    lemma_wrap(s, a, n);
    lemma_wrap(s, b, n);
    assert(x != y);
    lemma_turn(extent / n, ranking[x].slots.len() as int);
    lemma_turn(extent / n, ranking[y].slots.len() as int);
    let i = (extent / n) % (ranking[x].slots.len() as int);
    let k = (extent / n) % (ranking[y].slots.len() as int);
    assert(ranking[x].slots[i].key == ranking[x].key);
    assert(ranking[y].slots[k].key == ranking[y].key);
    if x < y {
        assert(ranking[x].key != ranking[y].key);
    } else {
        assert(ranking[y].key != ranking[x].key);
    }
}

proof fn lemma_turn(round: int, len: int)
    requires
        len > 0,
    ensures
        0 <= round % len < len,
{
}

proof fn lemma_usable_slot(disks: Seq<PlacementDisk>, nodes: Seq<PlacementNode>, slot: Slot)
    requires
        usable_slots(disks, nodes).contains(slot),
    ensures
        exists|i: int|
            0 <= i < disks.len() && (#[trigger] disks[i]).disk_id.value == slot.id
                && disks[i].node_id.value == slot.key && disks[i].free() == slot.free
                && disks[i].state.takes_extents() && is_known(nodes, disks[i].node_id),
    decreases disks.len(),
{
    let front = disks.drop_last();
    let d = disks.last();
    let before = usable_slots(front, nodes);
    let x = choose|x: int|
        0 <= x < usable_slots(disks, nodes).len() && usable_slots(disks, nodes)[x] == slot;
    if x < before.len() {
        assert(before[x] == slot);
        assert(before.contains(slot));
        lemma_usable_slot(front, nodes, slot);
        let i = choose|i: int|
            0 <= i < front.len() && (#[trigger] front[i]).disk_id.value == slot.id
                && front[i].node_id.value == slot.key && front[i].free() == slot.free
                && front[i].state.takes_extents() && is_known(nodes, front[i].node_id);
        assert(disks[i] == front[i]);
    } else {
        assert(disks[disks.len() - 1] == d);
    }
}

/// Every copy stands on a disk that takes new extents, on one of the given nodes.
pub proof fn copies_stand_on_usable_disks(
    disks: Seq<PlacementDisk>,
    nodes: Seq<PlacementNode>,
    extent: int,
    j: int,
)
    requires
        node_ranking(disks, nodes).len() > 0,
        0 <= extent,
        0 <= j,
    ensures
        exists|i: int|
            0 <= i < disks.len() && (#[trigger] disks[i]).disk_id.value == chosen_slot(
                node_ranking(disks, nodes),
                extent,
                j,
            ).id && disks[i].node_id.value == chosen_slot(
                node_ranking(disks, nodes),
                extent,
                j,
            ).key && disks[i].state.takes_extents() && is_known(nodes, disks[i].node_id),
{
    let slots = usable_slots(disks, nodes);
    let groups = grouped(slots);
    let ranking = node_ranking(disks, nodes);
    grouping_keeps_the_places(slots);
    ranking_keeps_the_groups(groups, Measure::Total);
    let n = ranking.len() as int;
    let x = chosen_node(n, extent, j);
    assert(0 <= x < n);
    lemma_turn(extent / n, ranking[x].slots.len() as int);
    let slot = chosen_slot(ranking, extent, j);
    assert(ranking[x].slots.contains(slot));
    assert(ranking.contains(ranking[x]));
    assert(groups.contains(ranking[x]));
    let g = choose|g: int| 0 <= g < groups.len() && groups[g] == ranking[x];
    assert(groups[g].slots.contains(slot));
    assert(in_groups(groups, slot));
    lemma_usable_slot(disks, nodes, slot);
}

/// The first extent goes to the freest nodes: no node that it leaves out has more free
/// space than one that it uses.
pub proof fn first_extent_prefers_free_nodes(
    disks: Seq<PlacementDisk>,
    nodes: Seq<PlacementNode>,
    count: int,
    j: int,
    left_out: int,
)
    requires
        0 <= j < count <= left_out < node_ranking(disks, nodes).len(),
    ensures
        chosen_node(node_ranking(disks, nodes).len() as int, 0, j) == j,
        total_free(node_ranking(disks, nodes)[j].slots) >= total_free(
            node_ranking(disks, nodes)[left_out].slots,
        ),
{
    let slots = usable_slots(disks, nodes);
    grouping_keeps_the_places(slots);
    ranking_keeps_the_groups(grouped(slots), Measure::Total);
    let n = node_ranking(disks, nodes).len() as int;
    lemma_small_mod(0, n as nat);
    lemma_wrap(0, j, n);
}

/// Whether a disk takes new extents and is on one of the nodes.
pub open spec fn is_usable(disk: PlacementDisk, nodes: Seq<PlacementNode>) -> bool {
    &&& disk.state == DiskState::Healthy || disk.state == DiskState::Suspect
    &&& exists|i: int| 0 <= i < nodes.len() && (#[trigger] nodes[i]).node_id == disk.node_id
}

/// Whether a node has a usable disk.
pub open spec fn node_has_usable_disk(
    disks: Seq<PlacementDisk>,
    nodes: Seq<PlacementNode>,
    node: u128,
) -> bool {
    exists|i: int|
        0 <= i < disks.len() && is_usable(#[trigger] disks[i], nodes) && disks[i].node_id.value
            == node
}

/// The room that the usable disks of a node have together.
pub open spec fn room_on(
    disks: Seq<PlacementDisk>,
    nodes: Seq<PlacementNode>,
    node: u128,
) -> int
    decreases disks.len(),
{
    if disks.len() == 0 {
        0
    } else {
        let d = disks.last();
        room_on(disks.drop_last(), nodes, node) + (if d.node_id.value == node && is_usable(d, nodes)
            && d.used_bytes <= d.capacity_bytes {
            d.capacity_bytes - d.used_bytes
        } else {
            0
        })
    }
}

spec fn slots_with_key(slots: Seq<Slot>, key: u128) -> int
    decreases slots.len(),
{
    if slots.len() == 0 {
        0
    } else {
        slots_with_key(slots.drop_last(), key) + (if slots.last().key == key {
            slots.last().free as int
        } else {
            0
        })
    }
}

proof fn lemma_total_with_insert(slots: Seq<Slot>, p: int, slot: Slot)
    requires
        0 <= p <= slots.len(),
    ensures
        total_free(slots.insert(p, slot)) == total_free(slots) + slot.free,
    decreases slots.len(),
{
    let after = slots.insert(p, slot);
    if p == slots.len() {
        assert(after.drop_last() =~= slots);
    } else {
        lemma_total_with_insert(slots.drop_last(), p, slot);
        assert(after.drop_last() =~= slots.drop_last().insert(p, slot));
        assert(after.last() == slots.last());
    }
}

proof fn lemma_group_totals(slots: Seq<Slot>)
    ensures
        forall|g: int|
            0 <= g < grouped(slots).len() ==> total_free((#[trigger] grouped(slots)[g]).slots)
                == slots_with_key(slots, grouped(slots)[g].key),
        forall|key: u128|
            (forall|g: int| 0 <= g < grouped(slots).len() ==> (#[trigger] grouped(slots)[g]).key
                != key) ==> #[trigger] slots_with_key(slots, key) == 0,
    decreases slots.len(),
{
    if slots.len() > 0 {
        let front = slots.drop_last();
        let slot = slots.last();
        lemma_group_totals(front);
        grouping_keeps_the_places(front);
        let groups = grouped(front);
        let after = grouped(slots);
        let p = group_position(groups, slot.key);
        lemma_group_position(groups, slot.key);
        if p < groups.len() {
            lemma_slot_position(groups[p].slots, slot.free);
            lemma_total_with_insert(
                groups[p].slots,
                slot_position(groups[p].slots, slot.free),
                slot,
            );
            assert forall|g: int| 0 <= g < after.len() implies total_free(
                (#[trigger] after[g]).slots,
            ) == slots_with_key(slots, after[g].key) by {
                assert(total_free(groups[g].slots) == slots_with_key(front, groups[g].key));
                if g < p {
                    assert(groups[g].key != groups[p].key);
                } else if p < g {
                    assert(groups[p].key != groups[g].key);
                }
            }
            assert forall|key: u128|
                (forall|g: int| 0 <= g < after.len() ==> (#[trigger] after[g]).key
                    != key) implies #[trigger] slots_with_key(slots, key) == 0 by {
                assert(after[p].key != key);
                assert forall|g: int| 0 <= g < groups.len() implies (#[trigger] groups[g]).key
                    != key by {
                    assert(after[g].key != key);
                }
                assert(slots_with_key(front, key) == 0);
            }
        } else {
            let n = groups.len() as int;
            assert(seq![slot].drop_last() =~= Seq::<Slot>::empty());
            reveal_with_fuel(total_free, 2);
            assert(total_free(seq![slot]) == slot.free);
            assert(slots_with_key(front, slot.key) == 0);
            assert forall|g: int| 0 <= g < after.len() implies total_free(
                (#[trigger] after[g]).slots,
            ) == slots_with_key(slots, after[g].key) by {
                if g < n {
                    assert(total_free(groups[g].slots) == slots_with_key(front, groups[g].key));
                    assert(groups[g].key != slot.key);
                }
            }
            assert forall|key: u128|
                (forall|g: int| 0 <= g < after.len() ==> (#[trigger] after[g]).key
                    != key) implies #[trigger] slots_with_key(slots, key) == 0 by {
                assert(after[n].key != key);
                assert forall|g: int| 0 <= g < groups.len() implies (#[trigger] groups[g]).key
                    != key by {
                    assert(after[g].key != key);
                }
                assert(slots_with_key(front, key) == 0);
            }
        }
    }
}

proof fn lemma_slots_are_room(
    disks: Seq<PlacementDisk>,
    nodes: Seq<PlacementNode>,
    node: u128,
)
    ensures
        slots_with_key(usable_slots(disks, nodes), node) == room_on(disks, nodes, node),
    decreases disks.len(),
{
    if disks.len() > 0 {
        lemma_slots_are_room(disks.drop_last(), nodes, node);
        let front = usable_slots(disks.drop_last(), nodes);
        let all = usable_slots(disks, nodes);
        if all.len() > front.len() {
            assert(all.drop_last() =~= front);
        }
    }
}

proof fn lemma_usable_disk_has_slot(disks: Seq<PlacementDisk>, nodes: Seq<PlacementNode>, i: int)
    requires
        0 <= i < disks.len(),
        is_usable(disks[i], nodes),
    ensures
        exists|s: Slot| #[trigger]
            usable_slots(disks, nodes).contains(s) && s.key == disks[i].node_id.value && s.id
                == disks[i].disk_id.value,
    decreases disks.len(),
{
    let front = disks.drop_last();
    let before = usable_slots(front, nodes);
    let all = usable_slots(disks, nodes);
    if i < front.len() {
        assert(front[i] == disks[i]);
        lemma_usable_disk_has_slot(front, nodes, i);
        let s = choose|s: Slot| #[trigger]
            before.contains(s) && s.key == disks[i].node_id.value && s.id == disks[i].disk_id.value;
        let x = choose|x: int| 0 <= x < before.len() && before[x] == s;
        assert(all[x] == s);
        assert(all.contains(s));
    } else {
        assert(all[before.len() as int].key == disks[i].node_id.value);
        assert(all.contains(all[before.len() as int]));
    }
}

/// The nodes that placement ranks are exactly those that have a usable disk, each once, and
/// those with more room on their usable disks come first.
pub proof fn nodes_are_ranked_by_their_room(disks: Seq<PlacementDisk>, nodes: Seq<PlacementNode>)
    ensures
        ({
            let ranking = node_ranking(disks, nodes);
            &&& forall|g: int, h: int|
                0 <= g < h < ranking.len() ==> (#[trigger] ranking[g]).key != (
                #[trigger] ranking[h]).key && room_on(disks, nodes, ranking[g].key) >= room_on(
                    disks,
                    nodes,
                    ranking[h].key,
                )
            &&& forall|i: int|
                0 <= i < disks.len() && is_usable(#[trigger] disks[i], nodes) ==> exists|g: int|
                    0 <= g < ranking.len() && (#[trigger] ranking[g]).key == disks[i].node_id.value
            &&& forall|g: int|
                0 <= g < ranking.len() ==> node_has_usable_disk(disks, nodes, (#[trigger] ranking[g]).key)
        }),
{
    let slots = usable_slots(disks, nodes);
    let groups = grouped(slots);
    let ranking = node_ranking(disks, nodes);
    grouping_keeps_the_places(slots);
    ranking_keeps_the_groups(groups, Measure::Total);
    crate::storage::ranking::ranking_keeps_the_places(groups, Measure::Total);
    lemma_group_totals(slots);
    assert forall|g: int| 0 <= g < ranking.len() implies total_free((#[trigger] ranking[g]).slots)
        == room_on(disks, nodes, ranking[g].key) by {
        assert(ranking.contains(ranking[g]));
        assert(groups.contains(ranking[g]));
        let x = choose|x: int| 0 <= x < groups.len() && groups[x] == ranking[g];
        assert(total_free(groups[x].slots) == slots_with_key(slots, groups[x].key));
        lemma_slots_are_room(disks, nodes, ranking[g].key);
    }
    assert forall|g: int, h: int| 0 <= g < h < ranking.len() implies (#[trigger] ranking[g]).key
        != (#[trigger] ranking[h]).key && room_on(disks, nodes, ranking[g].key) >= room_on(
        disks,
        nodes,
        ranking[h].key,
    ) by {
        assert(Measure::Total.of(ranking[g].slots) >= Measure::Total.of(ranking[h].slots));
    }
    assert forall|i: int| 0 <= i < disks.len() && is_usable(#[trigger] disks[i], nodes) implies exists|
        g: int,
    | 0 <= g < ranking.len() && (#[trigger] ranking[g]).key == disks[i].node_id.value by {
        lemma_usable_disk_has_slot(disks, nodes, i);
        let s = choose|s: Slot| #[trigger]
            slots.contains(s) && s.key == disks[i].node_id.value && s.id == disks[i].disk_id.value;
        assert(in_groups(groups, s));
        assert(in_groups(ranking, s));
        let g = choose|g: int| 0 <= g < ranking.len() && (#[trigger] ranking[g]).slots.contains(s);
        let k = choose|k: int| 0 <= k < ranking[g].slots.len() && ranking[g].slots[k] == s;
        assert(ranking[g].slots[k].key == ranking[g].key);
    }
    assert forall|g: int| 0 <= g < ranking.len() implies node_has_usable_disk(
        disks,
        nodes,
        (#[trigger] ranking[g]).key,
    ) by {
        let s = ranking[g].slots[0];
        assert(ranking[g].slots.contains(s));
        assert(in_groups(ranking, s));
        assert(in_groups(groups, s));
        assert(ranking[g].slots[0].key == ranking[g].key);
        lemma_usable_slot(disks, nodes, s);
        let i = choose|i: int|
            0 <= i < disks.len() && (#[trigger] disks[i]).disk_id.value == s.id
                && disks[i].node_id.value == s.key && disks[i].free() == s.free
                && disks[i].state.takes_extents() && is_known(nodes, disks[i].node_id);
        assert(is_usable(disks[i], nodes));
    }
}

/// The disks that hold an extent, the primary one first.
pub open spec fn holders(p: ExtentPlacement) -> Seq<DiskId> {
    if p.fragment_disks@.len() > 0 {
        p.fragment_disks@
    } else {
        seq![p.primary_disk] + p.replica_disks@
    }
}

/// Whether disks are the usable ones at these positions, no two of them on one node.
pub open spec fn stand_at(
    held: Seq<DiskId>,
    disks: Seq<PlacementDisk>,
    nodes: Seq<PlacementNode>,
    at: Seq<int>,
) -> bool {
    &&& at.len() == held.len()
    &&& forall|j: int|
        0 <= j < at.len() ==> 0 <= #[trigger] at[j] < disks.len() && disks[at[j]].disk_id == held[j]
            && is_usable(disks[at[j]], nodes)
    &&& forall|j: int, k: int|
        #![trigger at[j], at[k]]
        0 <= j < k < at.len() ==> disks[at[j]].node_id != disks[at[k]].node_id
}

/// A placed extent stands on as many disks as the policy asks for: one for each replica, or
/// one for each data and parity chunk. All of them are usable, and no two are on one node.
pub proof fn extents_stand_as_the_policy_asks(
    p: ExtentPlacement,
    volume: PlacementVolumeInfo,
    disks: Seq<PlacementDisk>,
    nodes: Seq<PlacementNode>,
    extent: int,
)
    requires
        0 <= extent,
        volume.protection.is_valid(),
        volume.width() <= node_ranking(disks, nodes).len(),
        places_extent(p, volume, node_ranking(disks, nodes), extent),
    ensures
        holders(p)[0] == p.primary_disk,
        match volume.protection {
            ProtectionPolicy::Replicated { replicas } => p.fragment_disks@.len() == 0
                && holders(p).len() == replicas,
            ProtectionPolicy::ErasureCoded { data_chunks, parity_chunks } => p.replica_disks@.len()
                == 0 && holders(p).len() == data_chunks + parity_chunks,
        },
        exists|at: Seq<int>| stand_at(holders(p), disks, nodes, at),
{
    let ranking = node_ranking(disks, nodes);
    let width = volume.width();
    let all = chosen_disks(ranking, extent, width);
    grouping_keeps_the_places(usable_slots(disks, nodes));
    ranking_keeps_the_groups(grouped(usable_slots(disks, nodes)), Measure::Total);
    assert(all.len() == width);
    if volume.protection is Replicated {
        assert(holders(p) =~= all);
    }
    assert(holders(p) == all);
    let at = Seq::new(
        width as nat,
        |j: int|
            choose|i: int|
                0 <= i < disks.len() && (#[trigger] disks[i]).disk_id.value == chosen_slot(
                    ranking,
                    extent,
                    j,
                ).id && disks[i].node_id.value == chosen_slot(ranking, extent, j).key
                    && disks[i].state.takes_extents() && is_known(nodes, disks[i].node_id),
    );
    assert forall|j: int| 0 <= j < at.len() implies 0 <= #[trigger] at[j] < disks.len()
        && disks[at[j]].disk_id == holders(p)[j] && is_usable(disks[at[j]], nodes)
        && disks[at[j]].node_id.value == chosen_slot(ranking, extent, j).key by {
        copies_stand_on_usable_disks(disks, nodes, extent, j);
        assert(all[j] == DiskId { value: chosen_slot(ranking, extent, j).id });
        assert(disks[at[j]].disk_id.value == all[j].value);
    }
    assert forall|j: int, k: int|
        #![trigger at[j], at[k]]
        0 <= j < k < at.len() implies disks[at[j]].node_id != disks[at[k]].node_id by {
        copies_stand_on_different_nodes(ranking, extent, width, j, k);
    }
    assert(stand_at(holders(p), disks, nodes, at));
}

/// The copies of an extent go to the nodes that follow one another in the ranking, and
/// successive extents start at successive nodes.
pub proof fn copies_go_round_the_nodes(node_count: int, extent: int, j: int)
    requires
        0 < node_count,
        0 <= extent,
        0 <= j,
    ensures
        chosen_node(node_count, extent, j) == (extent + j) % node_count,
{
    vstd::arithmetic::div_mod::lemma_add_mod_noop(extent, j, node_count);
    vstd::arithmetic::div_mod::lemma_add_mod_noop(extent % node_count, j, node_count);
    vstd::arithmetic::div_mod::lemma_mod_twice(extent, node_count);
}

/// A volume has as many extents as its bytes need, and no more.
pub proof fn extents_cover_the_volume(volume: PlacementVolumeInfo)
    requires
        volume.extent_size_bytes > 0,
    ensures
        volume.extent_count() * volume.extent_size_bytes >= volume.size_bytes,
        volume.size_bytes > 0 ==> (volume.extent_count() - 1) * volume.extent_size_bytes
            < volume.size_bytes,
        volume.size_bytes == 0 ==> volume.extent_count() == 0,
{
    let size = volume.size_bytes as int;
    let unit = volume.extent_size_bytes as int;
    let n = volume.extent_count();
    if size > 0 {
        vstd::arithmetic::div_mod::lemma_fundamental_div_mod(size + unit - 1, unit);
        let rest = (size + unit - 1) % unit;
        assert(size + unit - 1 == unit * n + rest);
        assert(n * unit == unit * n) by (nonlinear_arith);
        assert((n - 1) * unit == unit * n - unit) by (nonlinear_arith);
    }
}

/// Successive extents start at successive nodes, and after one round on the next disk of
/// each: every node leads the same number of extents of a whole number of rounds.
pub proof fn extents_take_turns(ranking: Seq<GroupModel>, round: int, node: int)
    requires
        groups_wf(ranking),
        0 <= node < ranking.len(),
        0 <= round,
    ensures
        chosen_node(ranking.len() as int, round * ranking.len() + node, 0) == node,
        chosen_slot(ranking, round * ranking.len() + node, 0)
            == ranking[node].slots[round % ranking[node].slots.len() as int],
{
    let n = ranking.len() as int;
    let e = round * n + node;
    assert(e % n == node && e / n == round) by (nonlinear_arith)
        requires
            e == round * n + node,
            0 <= node < n,
            0 <= round,
    ;
    lemma_wrap(node, 0, n);
}

fn knows(nodes: &[PlacementNode], node_id: NodeId) -> (r: bool)
    ensures
        r == is_known(nodes@, node_id),
{
    let mut i: usize = 0;
    while i < nodes.len()
        invariant
            i <= nodes@.len(),
            forall|j: int| 0 <= j < i ==> (#[trigger] nodes@[j]).node_id != node_id,
        decreases nodes@.len() - i,
    {
        if nodes[i].node_id == node_id {
            assert(nodes@[i as int].node_id == node_id);
            return true;
        }
        i = i + 1;
    }
    false
}

fn collect_slots(disks: &[PlacementDisk], nodes: &[PlacementNode]) -> (r: Vec<Slot>)
    ensures
        r@ == usable_slots(disks@, nodes@),
{
    let mut r: Vec<Slot> = Vec::new();
    let mut i: usize = 0;
    while i < disks.len()
        invariant
            i <= disks@.len(),
            r@ == usable_slots(disks@.take(i as int), nodes@),
        decreases disks@.len() - i,
    {
        let d = &disks[i];
        if d.state.allows_allocation() && knows(nodes, d.node_id) {
            r.push(Slot { key: d.node_id.value, free: d.free_bytes(), id: d.disk_id.value });
        }
        i = i + 1;
        assert(disks@.take(i as int).drop_last() =~= disks@.take(i - 1));
    }
    assert(disks@.take(disks@.len() as int) =~= disks@);
    r
}

fn has_usable_disk(disks: &[PlacementDisk]) -> (r: bool)
    ensures
        r == any_takes_extents(disks@),
{
    let mut i: usize = 0;
    while i < disks.len()
        invariant
            i <= disks@.len(),
            forall|j: int| 0 <= j < i ==> !(#[trigger] disks@[j]).state.takes_extents(),
        decreases disks@.len() - i,
    {
        if disks[i].state.allows_allocation() {
            assert(disks@[i as int].state.takes_extents());
            return true;
        }
        i = i + 1;
    }
    false
}

/// The disks of one extent.
fn pick_disks(ranking: &Vec<Group>, extent: u64, count: usize) -> (r: Vec<DiskId>)
    requires
        count <= ranking@.len(),
        ranking@.len() > 0,
        groups_wf(group_views(ranking@)),
    ensures
        r@ == chosen_disks(group_views(ranking@), extent as int, count as int),
{
    let n = ranking.len();
    let ghost views = group_views(ranking@);
    let start: usize = (extent % (n as u64)) as usize;
    let round: u64 = extent / (n as u64);
    let mut r: Vec<DiskId> = Vec::new();
    let mut j: usize = 0;
    while j < count
        invariant
            j <= count,
            n == ranking@.len(),
            count <= n,
            n > 0,
            views == group_views(ranking@),
            groups_wf(views),
            start == extent as int % n as int,
            round == extent as int / n as int,
            r@.len() == j,
            forall|x: int|
                0 <= x < j ==> (#[trigger] r@[x]).value == chosen_slot(views, extent as int, x).id,
        decreases count - j,
    {
        let at: usize = if j < n - start {
            start + j
        } else {
            j - (n - start)
        };
        proof {
            lemma_wrap(start as int, j as int, n as int);
        }
        assert(at == chosen_node(n as int, extent as int, j as int));
        assert(views[at as int] == ranking@[at as int]@);
        assert(views[at as int].slots.len() > 0);
        let slots = &ranking[at].slots;
        let turn: usize = (round % (slots.len() as u64)) as usize;
        r.push(DiskId::new(slots[turn].id));
        j = j + 1;
    }
    assert(r@ =~= chosen_disks(views, extent as int, count as int));
    r
}

/// The placement engine: generates extent-to-disk assignments for volumes.
#[derive(Clone, Copy, Debug)]
pub struct PlacementEngine {
    /// Extent size in bytes.
    pub extent_size_bytes: u64,
}

impl Default for PlacementEngine {
    fn default() -> (r: Self)
        ensures
            r.extent_size_bytes == DEFAULT_EXTENT_SIZE,
    {
        Self::new()
    }
}

impl PlacementEngine {
    /// Create a new placement engine with default settings.
    pub fn new() -> (r: Self)
        ensures
            r.extent_size_bytes == DEFAULT_EXTENT_SIZE,
    {
        PlacementEngine { extent_size_bytes: DEFAULT_EXTENT_SIZE }
    }

    /// Create a new placement engine with a custom extent size.
    pub fn with_extent_size(extent_size_bytes: u64) -> (r: Self)
        ensures
            r.extent_size_bytes == extent_size_bytes,
    {
        PlacementEngine { extent_size_bytes }
    }

    /// Place a volume's extents across available disks.
    ///
    /// Placement rules:
    /// - Spread replicas across different NODES (never two replicas on same node)
    /// - Prefer nodes with more free space
    /// - For EC: data+parity fragments on different nodes
    /// - Handle insufficient nodes (error)
    pub fn place_volume(
        &self,
        volume: &PlacementVolumeInfo,
        disks: &[PlacementDisk],
        nodes: &[PlacementNode],
    ) -> (r: Result<Vec<ExtentPlacement>, PlacementError>)
        requires
            volume.protection.is_valid() && any_takes_extents(disks@) ==> {
                &&& volume.size_bytes > 0 ==> volume.extent_size_bytes > 0
                &&& volume.width() <= u32::MAX
                &&& volume.extent_count() <= usize::MAX
            },
        ensures
            r == Err::<Vec<ExtentPlacement>, PlacementError>(PlacementError::NoHealthyDisks) <==> {
                &&& match volume.protection {
                    ProtectionPolicy::Replicated { replicas } => replicas >= 1,
                    ProtectionPolicy::ErasureCoded { data_chunks, parity_chunks } => data_chunks
                        >= 1 && parity_chunks >= 1,
                }
                &&& forall|i: int|
                    0 <= i < disks@.len() ==> !((#[trigger] disks@[i]).state is Healthy
                        || disks@[i].state is Suspect)
            },
            ({
                let ranking = node_ranking(disks@, nodes@);
                if !volume.protection.is_valid() {
                    r is Err && r->Err_0 is InvalidPolicy && r->Err_0->InvalidPolicy_0@
                        == volume.protection.fault()
                } else if !any_takes_extents(disks@) {
                    r == Err::<Vec<ExtentPlacement>, PlacementError>(PlacementError::NoHealthyDisks)
                } else if ranking.len() < volume.width() {
                    r == Err::<Vec<ExtentPlacement>, PlacementError>(
                        PlacementError::InsufficientNodes {
                            required: volume.width() as usize,
                            available: ranking.len() as usize,
                        },
                    )
                } else {
                    &&& r is Ok
                    &&& r->Ok_0@.len() == volume.extent_count()
                    &&& forall|i: int|
                        0 <= i < r->Ok_0@.len() ==> places_extent(
                            #[trigger] r->Ok_0@[i],
                            *volume,
                            ranking,
                            i,
                        )
                }
            }),
    {
        match volume.protection.validate() {
            Err(e) => {
                return Err(PlacementError::InvalidPolicy(e));
            },
            Ok(_) => {},
        }
        if !has_usable_disk(disks) {
            return Err(PlacementError::NoHealthyDisks);
        }
        let slots = collect_slots(disks, nodes);
        let ranking = rank_groups(group_slots(&slots), Measure::Total);
        let ghost views = node_ranking(disks@, nodes@);
        proof {
            grouping_keeps_the_places(slots@);
            ranking_keeps_the_groups(grouped(slots@), Measure::Total);
            assert(group_views(ranking@).len() == ranking@.len());
        }
        let available = ranking.len();
        let (width, replicated): (usize, bool) = match volume.protection {
            ProtectionPolicy::Replicated { replicas } => (replicas as usize, true),
            ProtectionPolicy::ErasureCoded { data_chunks, parity_chunks } => (
                (data_chunks + parity_chunks) as usize,
                false,
            ),
        };
        if available < width {
            return Err(PlacementError::InsufficientNodes { required: width, available });
        }
        let count: u64 = extents_needed(volume.size_bytes, volume.extent_size_bytes);
        let mut placements: Vec<ExtentPlacement> = Vec::new();
        let mut i: u64 = 0;
        while i < count
            invariant
                i <= count,
                placements@.len() == i,
                views == group_views(ranking@),
                groups_wf(views),
                width == volume.width(),
                1 <= width <= ranking@.len(),
                replicated == (volume.protection is Replicated),
                forall|x: int|
                    0 <= x < i ==> places_extent(#[trigger] placements@[x], *volume, views, x),
            decreases count - i,
        {
            let extent_id = ExtentId::generate();
            let mut chosen = pick_disks(&ranking, i, width);
            let ghost all = chosen@;
            let primary_disk = chosen[0];
            if replicated {
                chosen.remove(0);
                assert(chosen@ =~= all.skip(1));
                placements.push(
                    ExtentPlacement {
                        extent_id,
                        primary_disk,
                        replica_disks: chosen,
                        fragment_disks: Vec::new(),
                    },
                );
            } else {
                placements.push(
                    ExtentPlacement {
                        extent_id,
                        primary_disk,
                        replica_disks: Vec::new(),
                        fragment_disks: chosen,
                    },
                );
            }
            assert(places_extent(placements@[i as int], *volume, views, i as int));
            i = i + 1;
        }
        Ok(placements)
    }
}

/// The number of extents that a number of bytes needs.
fn extents_needed(size: u64, extent_size: u64) -> (r: u64)
    requires
        size > 0 ==> extent_size > 0,
    ensures
        r == (if size == 0 {
            0
        } else {
            (size + extent_size - 1) / extent_size as int
        }),
{
    if size == 0 {
        return 0;
    }
    let whole = size / extent_size;
    let rest = size % extent_size;
    proof {
        let n = size as int;
        let d = extent_size as int;
        vstd::arithmetic::div_mod::lemma_fundamental_div_mod(n, d);
        if rest > 0 {
            assert((n + d - 1) / d == whole + 1) by (nonlinear_arith)
                requires
                    n == d * whole + rest,
                    0 < rest < d,
            ;
            assert(whole < u64::MAX) by (nonlinear_arith)
                requires
                    n == d * whole + rest,
                    rest > 0,
                    d >= 1,
                    n <= u64::MAX,
                    whole >= 0,
            ;
        } else {
            assert((n + d - 1) / d == whole) by (nonlinear_arith)
                requires
                    n == d * whole,
                    d >= 1,
            ;
        }
    }
    if rest > 0 {
        whole + 1
    } else {
        whole
    }
}

/// In the first round each node gives a disk with the most room of its usable ones.
pub proof fn a_node_gives_its_roomiest_disk_first(
    disks: Seq<PlacementDisk>,
    nodes: Seq<PlacementNode>,
    extent: int,
    j: int,
    other: int,
)
    requires
        0 <= extent < node_ranking(disks, nodes).len(),
        0 <= j,
        0 <= other < disks.len(),
        is_usable(disks[other], nodes),
        disks[other].node_id.value == chosen_slot(node_ranking(disks, nodes), extent, j).key,
    ensures
        exists|i: int|
            {
                &&& 0 <= i < disks.len()
                &&& (#[trigger] disks[i]).disk_id.value == chosen_slot(
                    node_ranking(disks, nodes),
                    extent,
                    j,
                ).id
                &&& is_usable(disks[i], nodes)
                &&& disks[i].node_id == disks[other].node_id
                &&& disks[other].capacity_bytes <= disks[other].used_bytes
                    || disks[i].capacity_bytes - disks[i].used_bytes >= disks[other].capacity_bytes
                    - disks[other].used_bytes
            },
{
    let slots = usable_slots(disks, nodes);
    let groups = grouped(slots);
    let ranking = node_ranking(disks, nodes);
    grouping_keeps_the_places(slots);
    ranking_keeps_the_groups(groups, Measure::Total);
    crate::storage::ranking::ranking_keeps_the_places(groups, Measure::Total);
    let n = ranking.len() as int;
    let x = chosen_node(n, extent, j);
    assert(0 <= x < n);
    assert(extent / n == 0) by (nonlinear_arith)
        requires
            0 <= extent < n,
    ;
    lemma_small_mod(0, ranking[x].slots.len());
    let slot = ranking[x].slots[0];
    assert(chosen_slot(ranking, extent, j) == slot);
    assert(ranking[x].slots.contains(slot));
    assert(in_groups(ranking, slot));
    assert(in_groups(groups, slot));
    lemma_usable_slot(disks, nodes, slot);
    let i = choose|i: int|
        0 <= i < disks.len() && (#[trigger] disks[i]).disk_id.value == slot.id
            && disks[i].node_id.value == slot.key && disks[i].free() == slot.free
            && disks[i].state.takes_extents() && is_known(nodes, disks[i].node_id);
    assert(is_usable(disks[i], nodes));
    lemma_usable_disk_slot(disks, nodes, other);
    let s = Slot {
        key: disks[other].node_id.value,
        free: disks[other].free(),
        id: disks[other].disk_id.value,
    };
    assert(in_groups(groups, s));
    assert(in_groups(ranking, s));
    let g = choose|g: int| 0 <= g < ranking.len() && (#[trigger] ranking[g]).slots.contains(s);
    let k = choose|k: int| 0 <= k < ranking[g].slots.len() && ranking[g].slots[k] == s;
    assert(ranking[g].slots[k].key == ranking[g].key);
    assert(ranking[x].slots[0].key == ranking[x].key);
    if g < x {
        assert(ranking[g].key != ranking[x].key);
    } else if x < g {
        assert(ranking[x].key != ranking[g].key);
    }
    if k > 0 {
        assert(ranking[x].slots[0].free >= ranking[x].slots[k].free);
    }
}

proof fn lemma_usable_disk_slot(disks: Seq<PlacementDisk>, nodes: Seq<PlacementNode>, i: int)
    requires
        0 <= i < disks.len(),
        is_usable(disks[i], nodes),
    ensures
        usable_slots(disks, nodes).contains(
            Slot {
                key: disks[i].node_id.value,
                free: disks[i].free(),
                id: disks[i].disk_id.value,
            },
        ),
    decreases disks.len(),
{
    let front = disks.drop_last();
    let before = usable_slots(front, nodes);
    let all = usable_slots(disks, nodes);
    let s = Slot {
        key: disks[i].node_id.value,
        free: disks[i].free(),
        id: disks[i].disk_id.value,
    };
    if i < front.len() {
        assert(front[i] == disks[i]);
        lemma_usable_disk_slot(front, nodes, i);
        let x = choose|x: int| 0 <= x < before.len() && before[x] == s;
        assert(all[x] == s);
    } else {
        assert(all[before.len() as int] == s);
    }
}

/// Every copy of an extent, not only the first, stands on the disk of its node whose turn it
/// is: in each round of extents the next one, and after the last the first again.
pub proof fn copies_take_turns_on_the_disks(
    ranking: Seq<GroupModel>,
    round: int,
    start: int,
    j: int,
)
    requires
        groups_wf(ranking),
        0 <= start < ranking.len(),
        0 <= j < ranking.len(),
        0 <= round,
    ensures
        ({
            let n = ranking.len() as int;
            let node = if start + j < n {
                start + j
            } else {
                start + j - n
            };
            let slots = ranking[node].slots;
            &&& slots.len() > 0
            &&& chosen_slot(ranking, round * n + start, j) == slots[round % slots.len() as int]
        }),
{
    let n = ranking.len() as int;
    let e = round * n + start;
    assert(e % n == start && e / n == round) by (nonlinear_arith)
        requires
            e == round * n + start,
            0 <= start < n,
            0 <= round,
    ;
    lemma_wrap(start, j, n);
}

} // verus!
